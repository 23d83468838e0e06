//! What each operation of a session comes to: what is written, what is reported, and what is left
//! alone.

use crate::channel::{ChannelView, MessageView};
use crate::error::Error;
use crate::frame::{DataView, FrameKind, FrameView, SeqView};
use crate::greeting::{GreetingView, GREETING_CHANNEL};
use crate::management::{CloseView, ErrorReplyView, ManagementView, ProfileView, StartView};
use crate::session;
use crate::session::{CoreView, EventView, Pending, Role, State, Step};
use vstd::prelude::*;

verus! {

// ---- what is left alone ----------------------------------------------------------

/// Whether two maps agree on a key.
pub open spec fn agree<T>(a: Map<u32, T>, b: Map<u32, T>, key: u32) -> bool {
    &&& a.contains_key(key) == b.contains_key(key)
    &&& a.contains_key(key) ==> a[key] == b[key]
}

/// Whether everything that a session keeps for a channel is the same in another: the channel, what
/// is queued on it, what it has not acknowledged, which messages wait for replies on it, and the
/// replies held for them.
pub open spec fn keeps(s: CoreView, t: CoreView, number: u32) -> bool {
    &&& number == GREETING_CHANNEL ==> t.zero == s.zero
    &&& agree(s.channels, t.channels, number)
    &&& agree(s.queues, t.queues, number)
    &&& agree(s.unacked, t.unacked, number)
    &&& agree(s.reply_order, t.reply_order, number)
    &&& agree(s.held_replies, t.held_replies, number)
}

/// Whether what a session knows apart from its channels is the same in another.
pub open spec fn same_standing(s: CoreView, t: CoreView) -> bool {
    &&& t.config == s.config
    &&& t.state == s.state
    &&& t.peer_greeting == s.peer_greeting
    &&& t.pending == s.pending
    &&& t.half_open == s.half_open
    &&& t.next_channel == s.next_channel
}

/// Whether nothing that was to be written, and nothing that was to be reported, has been lost or
/// moved: there may be more behind it.
pub open spec fn grows(s: CoreView, t: CoreView) -> bool {
    &&& s.outbound.is_prefix_of(t.outbound)
    &&& s.events.is_prefix_of(t.events)
}

/// Whether a session differs from another in one channel alone, with nothing more to report.
pub open spec fn touches(s: CoreView, t: CoreView, number: u32) -> bool {
    &&& same_standing(s, t)
    &&& t.events == s.events
    &&& s.outbound.is_prefix_of(t.outbound)
    &&& forall|other: u32| other != number ==> #[trigger] keeps(s, t, other)
}

proof fn lemma_touches_twice(s: CoreView, t: CoreView, u: CoreView, number: u32)
    requires
        touches(s, t, number),
        touches(t, u, number),
    ensures
        touches(s, u, number),
{
    assert forall|other: u32| other != number implies #[trigger] keeps(s, u, other) by {
        assert(keeps(s, t, other));
        assert(keeps(t, u, other));
    }
    assert(s.outbound =~= u.outbound.take(s.outbound.len() as int));
}

proof fn lemma_flush_touches(s: CoreView, number: u32)
    ensures
        touches(s, s.flush(number).0, number),
        s.flush(number).0.reply_order == s.reply_order,
        s.flush(number).0.held_replies == s.held_replies,
        s.flush(number).0.unacked == s.unacked,
{
    let t = s.flush(number).0;
    assert(s.outbound =~= t.outbound.take(s.outbound.len() as int));
}

proof fn lemma_release_touches(s: CoreView, number: u32)
    requires
        number != GREETING_CHANNEL,
    ensures
        touches(s, s.release(number).0, number),
    decreases session::entry(s.reply_order, number).len(),
{
    if let Some(held) = s.ready(number) {
        let next = s.reply_order[number][0];
        let moved = CoreView {
            held_replies: s.held_replies.insert(number, s.held_replies[number].remove(next)),
            queues: s.queues.insert(
                number,
                session::entry(s.queues, number) + s.held_replies[number][next],
            ),
            ..s
        };
        assert(touches(s, moved, number));
        lemma_flush_touches(moved, number);
        let t = s.release_ready(number).0;
        lemma_touches_twice(s, moved, t, number);
        let u = t.pop_order(number);
        assert(touches(t, u, number));
        lemma_touches_twice(s, t, u, number);
        if s.release_ready(number).1 is Ok {
            lemma_release_touches(u, number);
            lemma_touches_twice(s, u, u.release(number).0, number);
        }
    } else {
        assert(touches(s, s, number));
    }
}

/// Sending on a channel concerns that channel alone. Everything kept for the others, channel 0
/// among them, stays as it was, and so do the events, the state and the requests made; what was
/// to be written before is written first.
pub proof fn law_sending_concerns_one_channel(
    s: CoreView,
    number: u32,
    kind: FrameKind,
    msgno: u32,
    ansno: Option<u32>,
    payload: Seq<u8>,
)
    requires
        number != GREETING_CHANNEL,
    ensures
        touches(s, s.send(number, kind, msgno, ansno, payload).0, number),
        touches(s, s.send_msg(number, payload).0, number),
{
    lemma_send_touches(s, number, kind, msgno, ansno, payload);
    assert(touches(s, s, number));
    if s.channels.contains_key(number) {
        let (c, allocated) = s.channels[number].allocate();
        let held = s.with_open_channel(number, c);
        assert(touches(s, held, number));
        if let Ok(m) = allocated {
            lemma_send_touches(held, number, FrameKind::Msg, m, None, payload);
            lemma_touches_twice(
                s,
                held,
                held.send(number, FrameKind::Msg, m, None, payload).0,
                number,
            );
        }
    }
}

proof fn lemma_send_touches(
    s: CoreView,
    number: u32,
    kind: FrameKind,
    msgno: u32,
    ansno: Option<u32>,
    payload: Seq<u8>,
)
    requires
        number != GREETING_CHANNEL,
    ensures
        touches(s, s.send(number, kind, msgno, ansno, payload).0, number),
{
    assert(touches(s, s, number));
    let told = s.told(number, kind, msgno);
    assert(touches(s, told, number));
    let m = MessageView { kind, msgno, ansno, payload };
    assert(touches(told, told.hold(number, m), number));
    lemma_touches_twice(s, told, told.hold(number, m), number);
    let queued = told.enqueue(number, m);
    assert(touches(told, queued, number));
    lemma_touches_twice(s, told, queued, number);
    lemma_flush_touches(queued, number);
    let t = queued.flush(number).0;
    lemma_touches_twice(s, queued, t, number);
    lemma_release_touches(t, number);
    lemma_touches_twice(s, t, t.release(number).0, number);
    let popped = t.pop_order(number);
    assert(touches(t, popped, number));
    lemma_touches_twice(s, t, popped, number);
    lemma_release_touches(popped, number);
    lemma_touches_twice(s, popped, popped.release(number).0, number);
}

/// A frame that arrives on a channel concerns that channel alone: everything kept for the others
/// stays as it was, with the state and the requests made. What was to be written and reported
/// before comes first, and at most one thing more is reported, about that channel.
pub proof fn law_frames_concern_one_channel(s: CoreView, f: DataView, seq: SeqView)
    requires
        f.channel != GREETING_CHANNEL,
    ensures
        ({
            let t = s.handle_frame(FrameView::Data(f)).0;
            &&& same_standing(s, t)
            &&& grows(s, t)
            &&& forall|other: u32| other != f.channel ==> #[trigger] keeps(s, t, other)
            &&& t.events == s.events || exists|message: MessageView|
                t.events == #[trigger] s.events.push(
                    EventView::MessageReceived { channel: f.channel, message },
                )
        }),
        touches(s, s.handle_frame(FrameView::Flow(seq)).0, seq.channel),
{
    let t = s.handle_frame(FrameView::Data(f)).0;
    if s.channels.contains_key(f.channel) {
        let c = s.channels[f.channel].accept(f).0;
        let held = s.with_channel(f.channel, c);
        assert(touches(s, held, f.channel));
        let acked = held.acknowledge(f.channel, f.payload.len() as u32).0;
        assert(s.outbound =~= acked.outbound.take(s.outbound.len() as int));
        assert(touches(held, acked, f.channel));
        assert forall|other: u32| other != f.channel implies #[trigger] keeps(s, t, other) by {
            assert(keeps(s, held, other));
            assert(keeps(held, acked, other));
        }
        assert(t.outbound == s.outbound || t.outbound == acked.outbound);
        assert(s.events =~= t.events.take(s.events.len() as int));
    }
    assert(s.outbound =~= s.outbound.take(s.outbound.len() as int));
    assert(s.events =~= s.events.take(s.events.len() as int));
    assert(touches(s, s, seq.channel));
    if s.knows(seq.channel) {
        let opened = s.with_channel(seq.channel, s.channel(seq.channel).apply_seq(seq));
        assert(touches(s, opened, seq.channel));
        lemma_flush_touches(opened, seq.channel);
        lemma_touches_twice(s, opened, opened.flush(seq.channel).0, seq.channel);
    }
}

// ---- closing ---------------------------------------------------------------------

/// Closing a channel other than channel 0 leaves everything kept for every other channel, channel
/// 0 included, as it was: the channel, what is queued on it, what it has not acknowledged, which
/// messages wait for replies and the replies held. Nothing of the closed channel is left, what was
/// to be written stays, and the one thing more that is reported is that this channel is closed.
pub proof fn law_closing_one_channel_keeps_the_others(s: CoreView, channel: u32)
    requires
        channel != GREETING_CHANNEL,
    ensures
        ({
            let t = s.finish_close(channel);
            &&& forall|other: u32| other != channel ==> #[trigger] keeps(s, t, other)
            &&& same_standing(s, t)
            &&& t.outbound == s.outbound
            &&& t.events == s.events.push(EventView::ChannelClosed { channel })
            &&& !t.channels.contains_key(channel)
            &&& !t.queues.contains_key(channel)
            &&& !t.unacked.contains_key(channel)
            &&& !t.reply_order.contains_key(channel)
            &&& !t.held_replies.contains_key(channel)
        }),
{
}

/// Closing channel 0 closes the session: nothing is kept for any channel, the one thing more that
/// is reported is that the session is closed, and what was to be written stays.
pub proof fn law_closing_the_session_keeps_nothing(s: CoreView)
    ensures
        ({
            let t = s.finish_close(GREETING_CHANNEL);
            &&& t.state == State::Closed
            &&& forall|n: u32|
                {
                    &&& !t.channels.contains_key(n)
                    &&& !#[trigger] t.queues.contains_key(n)
                    &&& !t.unacked.contains_key(n)
                    &&& !t.reply_order.contains_key(n)
                    &&& !t.held_replies.contains_key(n)
                }
            &&& t.events == s.events.push(EventView::SessionClosed)
            &&& t.outbound == s.outbound
            &&& t.config == s.config
            &&& t.peer_greeting == s.peer_greeting
            &&& t.next_channel == s.next_channel
            &&& t.zero == s.zero
        }),
{
}

// ---- what is written on channel 0 ------------------------------------------------

/// Whether a session is another with a management message put behind what waits on channel 0, and
/// as much of that written as the window takes, `ok` telling whether all of it could be put into
/// frames.
pub open spec fn says(
    s: CoreView,
    t: CoreView,
    ok: bool,
    kind: FrameKind,
    msgno: u32,
    m: ManagementView,
) -> bool {
    let said = MessageView { kind, msgno, ansno: None, payload: m.payload() };
    let f = session::flushed(
        s.zero,
        session::entry(s.queues, GREETING_CHANNEL).push(said),
        s.config.max_frame_size,
    );
    &&& ok <==> f.result is Ok
    &&& t.zero == f.channel
    &&& session::entry(t.queues, GREETING_CHANNEL) == f.queue
    &&& t.outbound == s.outbound + session::wires(f.frames)
}

/// Asking for a channel takes the next number of this end and sends a `<start>` with that number
/// and the one profile asked for, as a `MSG` under a message number that was free. What it asked
/// for is remembered under that message number. The channel is not open yet, and nothing is
/// reported.
pub proof fn law_a_channel_is_asked_for_under_its_number(s: CoreView, profile: ProfileView)
    requires
        s.state == State::Ready,
    ensures
        ({
            let (t, r) = s.start_channel(profile);
            let (zero, allocated) = s.zero.allocate();
            let start = StartView {
                number: s.next_channel,
                server_name: None,
                profiles: seq![profile],
            };
            &&& allocated matches Err(e) ==> r == Err::<u32, Error>(e)
            &&& allocated matches Ok(msgno) ==> {
                &&& says(
                    CoreView { zero, ..s },
                    t,
                    r is Ok,
                    FrameKind::Msg,
                    msgno,
                    ManagementView::Start(start),
                )
                &&& r matches Ok(number) ==> number == s.next_channel
                &&& t.pending.contains_key(msgno)
                &&& t.pending[msgno] == Pending::Start(s.next_channel)
                &&& forall|other: u32| other != msgno ==> #[trigger] agree(
                    s.pending,
                    t.pending,
                    other,
                )
                &&& t.half_open.contains_key(s.next_channel)
                &&& t.half_open[s.next_channel] == profile
                &&& forall|n: u32| n != GREETING_CHANNEL ==> #[trigger] keeps(s, t, n)
                &&& t.events == s.events
                &&& t.state == s.state
            }
        }),
{
}

/// Asking for a channel to be closed sends a `<close>` for that channel, with the code for success
/// and no explanation, as a `MSG` under a message number that was free, and remembers under it
/// which channel was meant. Nothing is closed yet, and nothing is reported.
pub proof fn law_a_close_is_asked_for_by_number(s: CoreView, channel: u32)
    requires
        s.state == State::Ready,
        s.knows(channel),
    ensures
        ({
            let (t, r) = s.close_channel(channel);
            let (zero, allocated) = s.zero.allocate();
            let close = CloseView { number: channel, code: 200, lang: None, text: None };
            &&& allocated matches Err(e) ==> r == Err::<(), Error>(e)
            &&& allocated matches Ok(msgno) ==> {
                &&& says(
                    CoreView { zero, ..s },
                    t,
                    r is Ok,
                    FrameKind::Msg,
                    msgno,
                    ManagementView::Close(close),
                )
                &&& t.pending.contains_key(msgno)
                &&& t.pending[msgno] == Pending::Close(channel)
                &&& forall|other: u32| other != msgno ==> #[trigger] agree(
                    s.pending,
                    t.pending,
                    other,
                )
                &&& t.half_open == s.half_open
                &&& t.next_channel == s.next_channel
                &&& forall|n: u32| n != GREETING_CHANNEL ==> #[trigger] keeps(s, t, n)
                &&& t.events == s.events
                &&& t.state == s.state
            }
        }),
{
}

/// A channel that is not open cannot be asked to be closed.
pub proof fn law_only_open_channels_are_asked_to_be_closed(s: CoreView, channel: u32)
    requires
        s.state == State::Ready,
        channel != 0,
        !s.channels.contains_key(channel),
    ensures
        s.close_channel(channel) == (s, Err::<(), Error>(Error::NoSuchChannel { channel })),
{
}

/// Accepting a channel opens it, fresh and with the profile's URI, and says so in an `RPY` to the
/// message that asked, which then waits no longer. Nothing is reported, and no other channel is
/// concerned.
pub proof fn law_an_accepted_channel_is_open_and_confirmed(
    s: CoreView,
    channel: u32,
    msgno: u32,
    profile: ProfileView,
)
    requires
        channel != GREETING_CHANNEL,
        !s.config.role.has(channel),
        !s.channels.contains_key(channel),
    ensures
        ({
            let (t, r) = s.accept_start(channel, msgno, profile);
            let zero = ChannelView { awaiting_reply: s.zero.awaiting_reply.remove(msgno), ..s.zero };
            &&& says(
                CoreView { zero, ..s },
                t,
                r is Ok,
                FrameKind::Rpy,
                msgno,
                ManagementView::Profile(profile),
            )
            &&& t.channels == s.channels.insert(
                channel,
                ChannelView::fresh(channel, profile.uri, s.config.window_size),
            )
            &&& forall|n: u32|
                n != GREETING_CHANNEL && n != channel ==> #[trigger] keeps(s, t, n)
            &&& same_standing(s, t)
            &&& t.events == s.events
        }),
{
}

/// Refusing a request, for a channel or for a close, says so in an `ERR` to the message that
/// asked, and changes nothing else.
pub proof fn law_a_refusal_is_said_and_changes_nothing(
    s: CoreView,
    msgno: u32,
    error: ErrorReplyView,
)
    ensures
        ({
            let (t, r) = s.reply(FrameKind::Error, msgno, ManagementView::Error(error));
            let zero = ChannelView { awaiting_reply: s.zero.awaiting_reply.remove(msgno), ..s.zero };
            &&& says(
                CoreView { zero, ..s },
                t,
                r is Ok,
                FrameKind::Error,
                msgno,
                ManagementView::Error(error),
            )
            &&& forall|n: u32| n != GREETING_CHANNEL ==> #[trigger] keeps(s, t, n)
            &&& same_standing(s, t)
            &&& t.events == s.events
        }),
{
}

/// Accepting a close says `<ok />` in an `RPY` to the message that asked, and closes the channel
/// that is named: this one is gone and reported as closed, and the others stay as they were. For
/// channel 0 it closes the session.
pub proof fn law_an_accepted_close_is_confirmed_and_done(s: CoreView, channel: u32, msgno: u32)
    ensures
        ({
            let (t, r) = s.accept_close(channel, msgno);
            let zero = ChannelView { awaiting_reply: s.zero.awaiting_reply.remove(msgno), ..s.zero };
            let said = MessageView {
                kind: FrameKind::Rpy,
                msgno,
                ansno: None,
                payload: ManagementView::Okay.payload(),
            };
            let f = session::flushed(
                zero,
                session::entry(s.queues, GREETING_CHANNEL).push(said),
                s.config.max_frame_size,
            );
            &&& r is Ok <==> f.result is Ok
            &&& r matches Err(e) ==> f.result == Err::<(), Error>(e)
            &&& t.zero == f.channel
            &&& t.outbound == s.outbound + session::wires(f.frames)
            &&& r is Ok && channel != GREETING_CHANNEL ==> {
                &&& session::entry(t.queues, GREETING_CHANNEL) == f.queue
                &&& !t.channels.contains_key(channel)
                &&& forall|n: u32|
                    n != GREETING_CHANNEL && n != channel ==> #[trigger] keeps(s, t, n)
                &&& same_standing(s, t)
                &&& t.events == s.events.push(EventView::ChannelClosed { channel })
            }
            &&& r is Ok && channel == GREETING_CHANNEL ==> {
                &&& t.state == State::Closed
                &&& forall|n: u32| !#[trigger] t.channels.contains_key(n)
                &&& t.events == s.events.push(EventView::SessionClosed)
            }
            &&& r is Err ==> t.events == s.events && t.channels == s.channels
        }),
{
    let (u, r) = s.reply(FrameKind::Rpy, msgno, ManagementView::Okay);
    assert(forall|n: u32| n != GREETING_CHANNEL ==> #[trigger] keeps(s, u, n));
    assert(same_standing(s, u) && u.events == s.events);
    if r is Ok {
        let t = u.finish_close(channel);
        assert(s.accept_close(channel, msgno).0 == t);
        if channel != GREETING_CHANNEL {
            law_closing_one_channel_keeps_the_others(u, channel);
            assert forall|n: u32| n != GREETING_CHANNEL && n != channel implies #[trigger] keeps(
                s,
                t,
                n,
            ) by {
                assert(keeps(s, u, n));
                assert(keeps(u, t, n));
            }
            assert(keeps(u, t, GREETING_CHANNEL));
        } else {
            law_closing_the_session_keeps_nothing(u);
            assert forall|n: u32| !#[trigger] t.channels.contains_key(n) by {
                assert(!t.queues.contains_key(n));
            }
        }
    }
}

// ---- what comes of management messages -------------------------------------------

/// A request of the peer is reported, with the channel it names, the message to reply to and all
/// that it says, and nothing else changes.
pub proof fn law_requests_are_reported(
    s: CoreView,
    msgno: u32,
    start: StartView,
    close: CloseView,
)
    ensures
        s.dispatch(FrameKind::Msg, msgno, ManagementView::Start(start)) == (
            CoreView {
                events: s.events.push(
                    EventView::StartRequested { channel: start.number, msgno, start },
                ),
                ..s
            },
            Ok::<(), Error>(()),
        ),
        s.dispatch(FrameKind::Msg, msgno, ManagementView::Close(close)) == (
            CoreView {
                events: s.events.push(
                    EventView::CloseRequested { channel: close.number, msgno, close },
                ),
                ..s
            },
            Ok::<(), Error>(()),
        ),
{
}

/// Whether the request under a message number is settled, and no other: it is pending no longer,
/// and its number is free again.
pub open spec fn settles(s: CoreView, t: CoreView, msgno: u32) -> bool {
    &&& !t.pending.contains_key(msgno)
    &&& forall|other: u32| other != msgno ==> #[trigger] agree(s.pending, t.pending, other)
    &&& t.zero == (ChannelView { outstanding: s.zero.outstanding.remove(msgno), ..s.zero })
}

/// A request for a channel that is answered by a profile opens the channel that was asked for
/// under that message number, fresh and with that profile's URI, and no other. Exactly one thing
/// more is reported: that this channel is open, with the profile that the peer confirmed.
pub proof fn law_a_granted_channel_is_the_one_asked_for(
    s: CoreView,
    msgno: u32,
    number: u32,
    profile: ProfileView,
)
    requires
        s.pending.contains_key(msgno),
        s.pending[msgno] == Pending::Start(number),
    ensures
        ({
            let (t, r) = s.dispatch(FrameKind::Rpy, msgno, ManagementView::Profile(profile));
            &&& r is Ok
            &&& t.events == s.events.push(EventView::ChannelOpened { channel: number, profile })
            &&& t.channels.contains_key(number)
            &&& t.channels[number] == ChannelView::fresh(
                number,
                profile.uri,
                s.config.window_size,
            )
            &&& forall|other: u32| other != number ==> #[trigger] agree(
                s.channels,
                t.channels,
                other,
            )
            &&& settles(s, t, msgno)
            &&& !t.half_open.contains_key(number)
            &&& forall|other: u32| other != number ==> #[trigger] agree(
                s.half_open,
                t.half_open,
                other,
            )
            &&& t.queues == s.queues
            &&& t.unacked == s.unacked
            &&& t.reply_order == s.reply_order
            &&& t.held_replies == s.held_replies
            &&& t.outbound == s.outbound
            &&& t.config == s.config
            &&& t.state == s.state
            &&& t.peer_greeting == s.peer_greeting
            &&& t.next_channel == s.next_channel
        }),
{
}

/// A request for a close that is answered by `<ok />` closes the channel that it named, and no
/// other: everything kept for the others stays as it was, and exactly one thing more is reported,
/// that this channel is closed. Where it named channel 0, the session is closed.
pub proof fn law_a_granted_close_is_the_one_asked_for(s: CoreView, msgno: u32, number: u32)
    requires
        s.pending.contains_key(msgno),
        s.pending[msgno] == Pending::Close(number),
    ensures
        ({
            let (t, r) = s.dispatch(FrameKind::Rpy, msgno, ManagementView::Okay);
            &&& r is Ok
            &&& settles(s, t, msgno)
            &&& t.outbound == s.outbound
            &&& t.half_open == s.half_open
            &&& t.next_channel == s.next_channel
            &&& number != GREETING_CHANNEL ==> {
                &&& t.events == s.events.push(EventView::ChannelClosed { channel: number })
                &&& !t.channels.contains_key(number)
                &&& forall|n: u32|
                    n != GREETING_CHANNEL && n != number ==> #[trigger] keeps(s, t, n)
                &&& agree(s.queues, t.queues, GREETING_CHANNEL)
                &&& agree(s.unacked, t.unacked, GREETING_CHANNEL)
                &&& t.state == s.state
            }
            &&& number == GREETING_CHANNEL ==> {
                &&& t.events == s.events.push(EventView::SessionClosed)
                &&& t.state == State::Closed
                &&& forall|n: u32| !#[trigger] t.channels.contains_key(n)
            }
        }),
{
}

/// A request that is answered by an `<error>` comes to nothing: what is reported is that it was
/// refused, with the channel it was about and the reason given, and no channel is concerned.
pub proof fn law_a_refused_request_is_the_one_made(s: CoreView, msgno: u32, error: ErrorReplyView)
    requires
        s.pending.contains_key(msgno),
    ensures
        ({
            let (t, r) = s.dispatch(FrameKind::Error, msgno, ManagementView::Error(error));
            &&& r is Ok
            &&& settles(s, t, msgno)
            &&& forall|n: u32| n != GREETING_CHANNEL ==> #[trigger] keeps(s, t, n)
            &&& t.outbound == s.outbound
            &&& t.queues == s.queues
            &&& t.state == s.state
            &&& s.pending[msgno] matches Pending::Start(number) ==> {
                &&& t.events == s.events.push(EventView::StartRefused { channel: number, error })
                &&& !t.half_open.contains_key(number)
                &&& forall|other: u32| other != number ==> #[trigger] agree(
                    s.half_open,
                    t.half_open,
                    other,
                )
            }
            &&& s.pending[msgno] matches Pending::Close(number) ==> {
                &&& t.events == s.events.push(EventView::CloseRefused { channel: number, error })
                &&& t.half_open == s.half_open
            }
        }),
{
}

/// Whether a management message can stand in a message of that kind as the answer to what is
/// pending, or as a request.
pub open spec fn fits(kind: FrameKind, m: ManagementView, pending: Option<Pending>) -> bool {
    match m {
        ManagementView::Start(_) | ManagementView::Close(_) => kind == FrameKind::Msg,
        ManagementView::Profile(_) => kind == FrameKind::Rpy && (pending matches Some(
            Pending::Start(_),
        )),
        ManagementView::Okay => kind == FrameKind::Rpy && (pending matches Some(Pending::Close(_))),
        ManagementView::Error(_) => kind == FrameKind::Error && pending is Some,
    }
}

/// A management message is acted upon exactly where it fits: a request in a `MSG`, a profile in an
/// `RPY` to a `<start>`, an `<ok />` in an `RPY` to a `<close>`, and an `<error>` in an `ERR` to
/// either. Anywhere else it is an error, nothing is reported, and no channel is concerned. What is
/// said in answer to nothing, or to something else, is answered by naming the message number.
pub proof fn law_management_messages_fit_their_kind(
    s: CoreView,
    kind: FrameKind,
    msgno: u32,
    m: ManagementView,
)
    ensures
        ({
            let (t, r) = s.dispatch(kind, msgno, m);
            let pending = s.pending.get(msgno);
            &&& r is Ok <==> fits(kind, m, pending)
            &&& r is Err ==> {
                &&& t.events == s.events
                &&& t.outbound == s.outbound
                &&& t.state == s.state
                &&& forall|n: u32| #[trigger] keeps(s, t, n)
                &&& forall|other: u32| other != msgno ==> #[trigger] agree(
                    s.pending,
                    t.pending,
                    other,
                )
            }
            &&& r matches Err(e) ==> e == (if kind == FrameKind::Rpy && (m is Profile || m is Okay)
                || kind == FrameKind::Error && m is Error {
                Error::UnknownMsgNo { msgno }
            } else {
                Error::UnexpectedElement
            })
        }),
{
}

/// A whole management message that arrives is acted upon as what its payload says, under the kind
/// and the message number of its frame. Taking it in changes nothing but channel 0, what it has
/// not acknowledged and the acknowledgement to write.
pub proof fn law_management_frames_are_acted_upon(s: CoreView, f: DataView, m: ManagementView)
    requires
        s.state != State::AwaitingGreeting,
        f.channel == GREETING_CHANNEL,
        !f.more,
        s.zero.partial is None,
        s.zero.accept(f).1 is Ok,
        s.zero.accept(f).0.recv_window.size <= crate::window::MAX_WINDOW_SIZE,
        s.zero.number == GREETING_CHANNEL,
        ManagementView::of_payload(f.payload) == Ok::<ManagementView, Error>(m),
    ensures
        exists|u: CoreView|
            {
                &&& same_standing(s, u)
                &&& u.events == s.events
                &&& s.outbound.is_prefix_of(u.outbound)
                &&& u.queues == s.queues
                &&& forall|n: u32| n != GREETING_CHANNEL ==> #[trigger] keeps(s, u, n)
                &&& u.zero.outstanding == s.zero.outstanding
                &&& s.handle_frame(FrameView::Data(f)) == #[trigger] u.dispatch(
                    f.kind,
                    f.msgno,
                    m,
                )
            },
{
    let c = s.zero.accept(f).0;
    let held = CoreView { zero: c, ..s };
    let (u, r) = held.acknowledge(GREETING_CHANNEL, f.payload.len() as u32);
    assert(r is Ok);
    assert(s.outbound =~= u.outbound.take(s.outbound.len() as int));
    assert(s.handle_frame(FrameView::Data(f)) == u.dispatch(f.kind, f.msgno, m));
}

/// A frame goes where it belongs: one of another channel to that channel, and one of channel 0 to
/// the greeting until that has come, and to channel management from then on.
pub proof fn law_frames_go_where_they_belong(s: CoreView, f: DataView, seq: SeqView)
    ensures
        f.channel != 0 && !s.channels.contains_key(f.channel) ==> s.handle_frame(
            FrameView::Data(f),
        ) == (s, Err::<(), Error>(Error::NoSuchChannel { channel: f.channel })),
        seq.channel != 0 && !s.channels.contains_key(seq.channel) ==> s.handle_frame(
            FrameView::Flow(seq),
        ) == (s, Err::<(), Error>(Error::NoSuchChannel { channel: seq.channel })),
        ({
            let (t, r) = s.handle_frame(FrameView::Data(f));
            f.channel == 0 && s.state == State::AwaitingGreeting && r is Ok ==> {
                &&& GreetingView::of_frame(f) matches Ok(greeting)
                &&& t.peer_greeting == Some(greeting)
                &&& t.state == State::Ready
                &&& t.events == s.events.push(EventView::GreetingReceived(greeting))
                &&& t.pending == s.pending
                &&& t.queues == s.queues
                &&& forall|n: u32| n != GREETING_CHANNEL ==> #[trigger] keeps(s, t, n)
            }
        }),
        s.state != State::AwaitingGreeting ==> s.handle_frame(FrameView::Data(f)).0.peer_greeting
            == s.peer_greeting,
{
}

/// The initiator of a session owns the odd channel numbers and starts with 1; the listener owns
/// the even ones but 0 and starts with 2.
pub proof fn law_initiators_are_odd(channel: u32, config: session::ConfigView)
    ensures
        Role::Initiator.has(channel) <==> channel % 2 == 1,
        Role::Listener.has(channel) <==> channel % 2 == 0 && channel > 0,
        CoreView::fresh(config).next_channel == (if config.role == Role::Initiator {
            1u32
        } else {
            2u32
        }),
{
}

/// What is received on a channel is acknowledged once it comes to half of the window advertised, or
/// to one octet where that is less: the window moves up by all that was not acknowledged, and the
/// `SEQ` frame that says so is written. Before that it is only counted.
pub proof fn law_half_a_window_is_acknowledged(s: CoreView, number: u32, octets: u32)
    requires
        s.knows(number),
        s.channel(number).within_limits(),
        s.channel(number).number == number,
    ensures
        ({
            let c = s.channel(number);
            let before: int = if s.unacked.contains_key(number) {
                s.unacked[number] as int
            } else {
                0
            };
            let total = before + octets;
            let (t, r) = s.acknowledge(number, octets);
            &&& r is Ok
            &&& forall|other: u32| other != number ==> #[trigger] keeps(s, t, other)
            &&& same_standing(s, t)
            &&& t.events == s.events
            &&& t.queues == s.queues
            &&& total < 0x1_0000_0000 ==> {
                let due = total > 0 && 2 * total >= c.recv_window.size - c.recv_window.size % 2;
                &&& t.unacked.contains_key(number)
                &&& t.unacked[number] == (if due {
                    0
                } else {
                    total
                })
                &&& !due ==> t.outbound == s.outbound && t.channel(number) == c
                &&& due ==> {
                    let window = crate::window::WindowView {
                        base: crate::window::advanced(c.recv_window.base, total),
                        size: c.recv_window.size,
                    };
                    &&& t.channel(number) == (ChannelView { recv_window: window, ..c })
                    &&& t.outbound == s.outbound + (SeqView {
                        channel: number,
                        ackno: window.base,
                        window: window.size,
                    }).wire()
                }
            }
        }),
{
}

/// Accepting a channel is refused for channel 0, for a number that is this end's own to give, and
/// for one that is open; nothing changes then.
pub proof fn law_channels_that_cannot_be_opened_are_refused(
    s: CoreView,
    channel: u32,
    msgno: u32,
    profile: ProfileView,
)
    requires
        channel == 0 || s.config.role.has(channel) || s.channels.contains_key(channel),
    ensures
        s.accept_start(channel, msgno, profile).0 == s,
        s.accept_start(channel, msgno, profile).1 is Err,
        s.accept_start(channel, msgno, profile).1->Err_0 is ChannelNumber,
{
}

/// Sending a message takes the next message number of the channel and sends it under that, at once
/// and whatever waits for a reply; the number is in flight from then on. Sending on a channel that
/// is not open changes nothing and says so.
pub proof fn law_messages_are_sent_under_a_number_of_their_own(
    s: CoreView,
    number: u32,
    payload: Seq<u8>,
    kind: FrameKind,
    msgno: u32,
    ansno: Option<u32>,
)
    requires
        number != GREETING_CHANNEL,
    ensures
        !s.channels.contains_key(number) ==> {
            &&& s.send_msg(number, payload) == (
                s,
                Err::<u32, Error>(Error::NoSuchChannel { channel: number }),
            )
            &&& s.send(number, kind, msgno, ansno, payload) == (
                s,
                Err::<(), Error>(Error::NoSuchChannel { channel: number }),
            )
        },
        s.channels.contains_key(number) ==> {
            let (c, allocated) = s.channels[number].allocate();
            let (t, r) = s.send_msg(number, payload);
            &&& allocated matches Err(e) ==> r == Err::<u32, Error>(e)
            &&& allocated matches Ok(n) ==> {
                let m = MessageView { kind: FrameKind::Msg, msgno: n, ansno: None, payload };
                let f = session::flushed(
                    c,
                    session::entry(s.queues, number).push(m),
                    s.config.max_frame_size,
                );
                &&& f.result is Ok ==> r == Ok::<u32, Error>(n)
                &&& t.channels[number] == f.channel
                &&& session::entry(t.queues, number) == f.queue
                &&& t.outbound == s.outbound + session::wires(f.frames)
                &&& t.reply_order == s.reply_order
                &&& t.held_replies == s.held_replies
            }
        },
{
}

/// The `NUL` that ends a run of answers ends their numbering: the next answer to a message of that
/// number is the first again. Nothing else that is sent changes how answers are numbered.
pub proof fn law_a_nul_ends_the_numbering(
    s: CoreView,
    number: u32,
    kind: FrameKind,
    msgno: u32,
    ansno: Option<u32>,
    payload: Seq<u8>,
    other: u32,
)
    requires
        number != GREETING_CHANNEL,
        s.channels.contains_key(number),
    ensures
        ({
            let t = s.send(number, kind, msgno, ansno, payload).0;
            &&& t.channels.contains_key(number)
            &&& kind == FrameKind::Nul ==> t.channels[number].answer_number(msgno) == 0
            &&& kind != FrameKind::Nul || other != msgno ==> t.channels[number].answer_number(other)
                == s.channels[number].answer_number(other)
        }),
{
    let told = s.told(number, kind, msgno);
    let m = MessageView { kind, msgno, ansno, payload };
    let queued = told.enqueue(number, m);
    lemma_flush_keeps_numbering(queued, number);
    let t = queued.flush(number).0;
    lemma_release_keeps_numbering(t, number);
    lemma_release_keeps_numbering(t.pop_order(number), number);
}

proof fn lemma_flush_keeps_numbering(s: CoreView, number: u32)
    requires
        number != GREETING_CHANNEL,
        s.channels.contains_key(number),
    ensures
        s.flush(number).0.channels.contains_key(number),
        s.flush(number).0.channels[number].next_ansno == s.channels[number].next_ansno,
{
    if s.queues.contains_key(number) {
        session::law_pacing_keeps_every_octet_in_order(
            s.channels[number],
            s.queues[number],
            s.config.max_frame_size,
        );
    }
}

proof fn lemma_release_keeps_numbering(s: CoreView, number: u32)
    requires
        number != GREETING_CHANNEL,
        s.channels.contains_key(number),
    ensures
        s.release(number).0.channels.contains_key(number),
        s.release(number).0.channels[number].next_ansno == s.channels[number].next_ansno,
    decreases session::entry(s.reply_order, number).len(),
{
    if let Some(held) = s.ready(number) {
        let next = s.reply_order[number][0];
        let moved = CoreView {
            held_replies: s.held_replies.insert(number, s.held_replies[number].remove(next)),
            queues: s.queues.insert(
                number,
                session::entry(s.queues, number) + s.held_replies[number][next],
            ),
            ..s
        };
        lemma_flush_keeps_numbering(moved, number);
        let (t, r) = s.release_ready(number);
        if r is Ok {
            lemma_release_keeps_numbering(t.pop_order(number), number);
        }
    }
}

/// Where no message waits for a reply, whatever is sent is written at once, as far as the window
/// takes it: nothing is held.
pub proof fn law_nothing_is_held_where_nothing_waits(
    s: CoreView,
    number: u32,
    kind: FrameKind,
    msgno: u32,
    ansno: Option<u32>,
    payload: Seq<u8>,
)
    requires
        number != GREETING_CHANNEL,
        s.channels.contains_key(number),
        session::entry(s.reply_order, number).len() == 0,
        kind == FrameKind::Ans ==> ansno is Some,
    ensures
        ({
            let (t, r) = s.send(number, kind, msgno, ansno, payload);
            let c = s.channels[number];
            let m = MessageView { kind, msgno, ansno, payload };
            let f = session::flushed(
                ChannelView { next_ansno: t.channels[number].next_ansno, ..c },
                session::entry(s.queues, number).push(m),
                s.config.max_frame_size,
            );
            &&& r is Ok <==> f.result is Ok
            &&& t.channels[number] == f.channel
            &&& session::entry(t.queues, number) == f.queue
            &&& t.outbound == s.outbound + session::wires(f.frames)
            &&& t.held_replies == s.held_replies
            &&& t.reply_order == s.reply_order
        }),
{
    let told = s.told(number, kind, msgno);
    let m = MessageView { kind, msgno, ansno, payload };
    let queued = told.enqueue(number, m);
    lemma_flush_keeps_numbering(queued, number);
    let t = queued.flush(number).0;
    assert(t.ready(number) is None);
    assert(told.channels[number] =~= ChannelView {
        next_ansno: t.channels[number].next_ansno,
        ..s.channels[number]
    });
}

/// A first frame that is no greeting is refused, and leaves the session waiting for one.
pub proof fn law_only_a_greeting_begins_a_session(s: CoreView, f: DataView)
    requires
        s.state == State::AwaitingGreeting,
        f.channel == GREETING_CHANNEL,
    ensures
        GreetingView::of_frame(f) matches Err(e) ==> s.handle_frame(FrameView::Data(f)) == (
            s,
            Err::<(), Error>(e),
        ),
        s.handle_frame(FrameView::Data(f)).1 is Err ==> s.handle_frame(
            FrameView::Data(f),
        ).0.state == State::AwaitingGreeting,
{
}

/// A session starts by sending its greeting, and nothing else: an `RPY` numbered zero on channel
/// 0. It awaits the peer's, has no channel open, has asked for nothing and has nothing to report.
pub proof fn law_sessions_start_with_their_greeting(config: session::ConfigView)
    ensures
        ({
            let s = CoreView::fresh(config);
            let said = MessageView {
                kind: FrameKind::Rpy,
                msgno: 0,
                ansno: None,
                payload: config.greeting.payload(),
            };
            let f = session::flushed(
                ChannelView::fresh(0, Seq::empty(), config.window_size),
                seq![said],
                config.max_frame_size,
            );
            &&& s.config == config
            &&& s.state == State::AwaitingGreeting
            &&& s.peer_greeting is None
            &&& s.zero == f.channel
            &&& session::entry(s.queues, 0) == f.queue
            &&& s.outbound == session::wires(f.frames)
            &&& s.events.len() == 0
            &&& forall|n: u32|
                {
                    &&& !#[trigger] s.channels.contains_key(n)
                    &&& !s.pending.contains_key(n)
                    &&& !s.half_open.contains_key(n)
                    &&& !s.reply_order.contains_key(n)
                    &&& !s.held_replies.contains_key(n)
                }
        }),
{
    let said = MessageView {
        kind: FrameKind::Rpy,
        msgno: 0,
        ansno: None,
        payload: config.greeting.payload(),
    };
    let blank = CoreView::blank(config);
    assert(session::entry(blank.queues, 0).push(said) =~= seq![said]);
    let f = session::flushed(blank.zero, seq![said], config.max_frame_size);
    assert(Seq::<u8>::empty() + session::wires(f.frames) =~= session::wires(f.frames));
}

/// The greeting's octets count against the window of channel 0 as all others do: what taking it
/// leaves is what acknowledging its payload leaves, but for the greeting itself.
pub proof fn law_the_greeting_is_acknowledged(s: CoreView, f: DataView, greeting: GreetingView)
    requires
        s.state == State::AwaitingGreeting,
        f.channel == GREETING_CHANNEL,
        f.payload.len() <= u32::MAX,
        GreetingView::of_frame(f) == Ok::<GreetingView, Error>(greeting),
        s.zero.accept(f).1 is Ok,
    ensures
        ({
            let (t, r) = s.handle_frame(FrameView::Data(f));
            let taken = CoreView { zero: s.zero.accept(f).0, ..s };
            let (u, told) = taken.acknowledge(GREETING_CHANNEL, f.payload.len() as u32);
            &&& r is Ok <==> told is Ok
            &&& t.zero == u.zero
            &&& t.unacked == u.unacked
            &&& t.outbound == u.outbound
            &&& t.queues == s.queues
            &&& t.channels == s.channels
            &&& r is Ok ==> {
                &&& t.state == State::Ready
                &&& t.peer_greeting == Some(greeting)
                &&& t.events == s.events.push(EventView::GreetingReceived(greeting))
            }
        }),
{
}

/// An `RPY` to something else than what it answers is refused, and with it the request is given up:
/// a later answer to it finds nothing. All else stays as it was. An `ERR` in answer to nothing
/// changes nothing.
pub proof fn law_a_wrong_answer_ends_its_request(
    s: CoreView,
    msgno: u32,
    m: ManagementView,
    error: ErrorReplyView,
)
    requires
        m is Profile || m is Okay,
        !fits(FrameKind::Rpy, m, s.pending.get(msgno)),
    ensures
        ({
            let (t, r) = s.dispatch(FrameKind::Rpy, msgno, m);
            let late = t.dispatch(FrameKind::Error, msgno, ManagementView::Error(error));
            &&& r == Err::<(), Error>(Error::UnknownMsgNo { msgno })
            &&& !t.pending.contains_key(msgno)
            &&& forall|other: u32| other != msgno ==> #[trigger] agree(s.pending, t.pending, other)
            &&& t == (CoreView { pending: t.pending, ..s })
            &&& late == (t, Err::<(), Error>(Error::UnknownMsgNo { msgno }))
        }),
{
}

/// An answer without a number is not sent, nor is anything on a channel that is not open: either is
/// refused and leaves the session as it was.
pub proof fn law_what_cannot_be_sent_is_refused(
    s: CoreView,
    number: u32,
    kind: FrameKind,
    msgno: u32,
    ansno: Option<u32>,
    payload: Seq<u8>,
)
    ensures
        !s.channels.contains_key(number) ==> {
            &&& s.send(number, kind, msgno, ansno, payload) == (
                s,
                Err::<(), Error>(Error::NoSuchChannel { channel: number }),
            )
            &&& s.send_msg(number, payload) == (
                s,
                Err::<u32, Error>(Error::NoSuchChannel { channel: number }),
            )
        },
        s.channels.contains_key(number) ==> s.send(number, FrameKind::Ans, msgno, None, payload)
            == (s, Err::<(), Error>(Error::MissingField { field: "ansno" })),
{
}

} // verus!
