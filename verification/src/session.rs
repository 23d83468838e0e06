//! The session state machine: one BEEP conversation, driven entirely by method calls.
//!
//! [`Session`] is where the pieces meet. It owns the decoder, the greeting exchange, the
//! channel table and the outbound buffer, and performs no I/O of its own:
//!
//! - [`Session::handle_input`] takes whatever octets arrived;
//! - [`Session::poll_transmit`] hands back whatever should be written;
//! - [`Session::poll_event`] reports what happened, one [`Event`] at a time.
//!
//! Nothing here blocks, allocates a socket or spawns anything. Two sessions can be wired to
//! each other inside a single test function.
//!
//! # Roles and channel numbers
//!
//! RFC 3080 splits the channel number space so the two peers can allocate without
//! negotiating: the peer that initiated the session uses odd numbers, the one that listened
//! uses even ones. Channel 0 is shared and carries management traffic.
//!
//! # Flow control
//!
//! A payload handed to [`Session::send`] is fragmented to fit the peer's window and the
//! frame size limit. Whatever does not fit stays queued on the channel and goes out as
//! `SEQ` frames arrive. Callers see none of that: they hand over a payload and it leaves in
//! order.

use crate::channel::{self, Channel, ChannelView, MessageView};
use crate::codec::{self, Decoder, DecoderView};
use crate::error::Error;
use crate::frame::{DataFrame, DataView, Frame, FrameKind, FrameView, SeqFrame, SeqView};
use crate::greeting::{Greeting, GreetingView, GREETING_CHANNEL};
use crate::management::{
    code, Close, CloseView, ErrorReply, ErrorReplyView, ManagementView, Message as Management,
    Profile, ProfileView, Start, StartView,
};
use crate::octets;
use crate::window::{self, DEFAULT_WINDOW_SIZE};
use bytes::{Bytes, BytesMut};
use std::collections::{BTreeMap, VecDeque};
use vstd::prelude::*;

pub mod delivery;
pub mod exchanges;
pub mod ordering;
pub mod outcomes;

verus! {

broadcast use vstd::laws_cmp::group_laws_cmp;

/// Which end of the session this is.
#[derive(Debug, Clone, Copy, PartialEq, Eq, Structural)]
pub enum Role {
    /// The peer that opened the transport. Allocates odd channel numbers.
    Initiator,
    /// The peer that accepted it. Allocates even channel numbers.
    Listener,
}

impl Role {
    /// The first channel number of a role.
    pub open spec fn first(self) -> u32 {
        match self {
            Role::Initiator => 1,
            Role::Listener => 2,
        }
    }

    /// Whether a channel number belongs to a role.
    pub open spec fn has(self, channel: u32) -> bool {
        match self {
            Role::Initiator => channel % 2 == 1,
            Role::Listener => channel % 2 == 0 && channel != 0,
        }
    }

    /// The first channel number this role may allocate.
    #[must_use]
    pub fn first_channel(self) -> (r: u32)
        ensures
            r == self.first(),
            self.has(r),
    {
        match self {
            Role::Initiator => 1,
            Role::Listener => 2,
        }
    }

    /// Whether `channel` is one this role is allowed to allocate.
    #[must_use]
    pub fn owns(self, channel: u32) -> (r: bool)
        ensures
            r == self.has(channel),
    {
        match self {
            Role::Initiator => channel % 2 == 1,
            Role::Listener => channel % 2 == 0 && channel != 0,
        }
    }
}

/// How far the session has got.
#[derive(Debug, Clone, Copy, PartialEq, Eq, Structural)]
pub enum State {
    /// The greeting has been queued; the peer's has not arrived.
    AwaitingGreeting,
    /// Both greetings have been exchanged; channels may be started.
    Ready,
    /// The session has been closed.
    Closed,
}

/// Something the session observed, for the layer above to act on.
#[derive(Debug, Clone, PartialEq, Eq)]
#[non_exhaustive]
pub enum Event {
    /// The peer announced itself. Carries the profiles it is willing to serve.
    GreetingReceived(Greeting),
    /// The peer asked for a channel. Answer with [`Session::accept_start`] or
    /// [`Session::refuse_start`].
    StartRequested {
        /// Channel number requested.
        channel: u32,
        /// Message number to reply to.
        msgno: u32,
        /// The request, including every profile offered.
        start: Start,
    },
    /// A channel this end asked for is now open.
    ChannelOpened {
        /// The channel number.
        channel: u32,
        /// The profile the peer confirmed, with any piggybacked content.
        profile: Profile,
    },
    /// A channel this end asked for was refused.
    StartRefused {
        /// The channel number that was requested.
        channel: u32,
        /// Why the peer refused.
        error: ErrorReply,
    },
    /// The peer asked to close a channel. Answer with [`Session::accept_close`] or
    /// [`Session::refuse_close`].
    CloseRequested {
        /// Channel to close; zero means the whole session.
        channel: u32,
        /// Message number to reply to.
        msgno: u32,
        /// The request.
        close: Close,
    },
    /// A channel is gone.
    ChannelClosed {
        /// The channel number.
        channel: u32,
    },
    /// A close this end asked for was refused.
    CloseRefused {
        /// The channel that stays open.
        channel: u32,
        /// Why the peer refused.
        error: ErrorReply,
    },
    /// The session is closed; no more traffic will be exchanged.
    SessionClosed,
    /// A complete message arrived on a channel.
    MessageReceived {
        /// The channel it arrived on.
        channel: u32,
        /// The reassembled message.
        message: channel::Message,
    },
}

/// What an event says.
#[verifier::ext_equal]
pub enum EventView {
    GreetingReceived(GreetingView),
    StartRequested { channel: u32, msgno: u32, start: StartView },
    ChannelOpened { channel: u32, profile: ProfileView },
    StartRefused { channel: u32, error: ErrorReplyView },
    CloseRequested { channel: u32, msgno: u32, close: CloseView },
    ChannelClosed { channel: u32 },
    CloseRefused { channel: u32, error: ErrorReplyView },
    SessionClosed,
    MessageReceived { channel: u32, message: MessageView },
}

impl View for Event {
    type V = EventView;

    open spec fn view(&self) -> EventView {
        match self {
            Event::GreetingReceived(g) => EventView::GreetingReceived(g@),
            Event::StartRequested { channel, msgno, start } => EventView::StartRequested {
                channel: *channel,
                msgno: *msgno,
                start: start@,
            },
            Event::ChannelOpened { channel, profile } => EventView::ChannelOpened {
                channel: *channel,
                profile: profile@,
            },
            Event::StartRefused { channel, error } => EventView::StartRefused {
                channel: *channel,
                error: error@,
            },
            Event::CloseRequested { channel, msgno, close } => EventView::CloseRequested {
                channel: *channel,
                msgno: *msgno,
                close: close@,
            },
            Event::ChannelClosed { channel } => EventView::ChannelClosed { channel: *channel },
            Event::CloseRefused { channel, error } => EventView::CloseRefused {
                channel: *channel,
                error: error@,
            },
            Event::SessionClosed => EventView::SessionClosed,
            Event::MessageReceived { channel, message } => EventView::MessageReceived {
                channel: *channel,
                message: message@,
            },
        }
    }
}

/// How a session is set up.
#[derive(Debug, Clone)]
pub struct Config {
    /// Which end this is.
    pub role: Role,
    /// The greeting to announce.
    pub greeting: Greeting,
    /// Window advertised on every channel, in octets.
    pub window_size: u32,
    /// Largest payload put in a single frame.
    pub max_frame_size: u32,
}

/// What a configuration says.
#[verifier::ext_equal]
pub struct ConfigView {
    pub role: Role,
    pub greeting: GreetingView,
    pub window_size: u32,
    pub max_frame_size: u32,
}

impl View for Config {
    type V = ConfigView;

    open spec fn view(&self) -> ConfigView {
        ConfigView {
            role: self.role,
            greeting: self.greeting@,
            window_size: self.window_size,
            max_frame_size: self.max_frame_size,
        }
    }
}

impl Config {
    /// A configuration for the given role, advertising no profiles.
    #[must_use]
    pub fn new(role: Role) -> (r: Config)
        ensures
            r@ == (ConfigView {
                role,
                greeting: GreetingView::empty(),
                window_size: DEFAULT_WINDOW_SIZE,
                max_frame_size: DEFAULT_WINDOW_SIZE,
            }),
    {
        Config {
            role,
            greeting: Greeting::new(),
            window_size: DEFAULT_WINDOW_SIZE,
            max_frame_size: DEFAULT_WINDOW_SIZE,
        }
    }

    /// Announces a profile in the greeting.
    #[must_use]
    pub fn with_profile(self, uri: &str) -> (r: Config)
        ensures
            r@ == (ConfigView {
                greeting: GreetingView {
                    profiles: self@.greeting.profiles.push(uri@),
                    ..self@.greeting
                },
                ..self@
            }),
    {
        Config {
            role: self.role,
            greeting: self.greeting.with_profile(uri),
            window_size: self.window_size,
            max_frame_size: self.max_frame_size,
        }
    }

    /// Sets the window advertised on every channel.
    #[must_use]
    pub fn with_window_size(self, size: u32) -> (r: Config)
        ensures
            r@ == (ConfigView { window_size: size, ..self@ }),
    {
        Config {
            role: self.role,
            greeting: self.greeting,
            window_size: size,
            max_frame_size: self.max_frame_size,
        }
    }

    /// Sets the largest payload put in a single frame.
    #[must_use]
    pub fn with_max_frame_size(self, size: u32) -> (r: Config)
        ensures
            r@ == (ConfigView { max_frame_size: size, ..self@ }),
    {
        Config {
            role: self.role,
            greeting: self.greeting,
            window_size: self.window_size,
            max_frame_size: size,
        }
    }
}

/// A payload waiting for window space.
#[derive(Debug)]
struct Queued {
    kind: FrameKind,
    msgno: u32,
    ansno: Option<u32>,
    payload: Bytes,
}

impl View for Queued {
    type V = MessageView;

    closed spec fn view(&self) -> MessageView {
        MessageView {
            kind: self.kind,
            msgno: self.msgno,
            ansno: self.ansno,
            payload: octets::octets(self.payload),
        }
    }
}

/// What a message number on channel 0 was asking for.
#[derive(Debug, Clone, Copy, PartialEq, Eq)]
pub enum Pending {
    /// To start this channel.
    Start(u32),
    /// To close this channel.
    Close(u32),
}

/// Whether a frame kind answers a message rather than starting an exchange.
pub open spec fn answers(kind: FrameKind) -> bool {
    kind != FrameKind::Msg
}

/// Whether a frame kind ends the exchange it belongs to.
pub open spec fn completes(kind: FrameKind) -> bool {
    kind == FrameKind::Rpy || kind == FrameKind::Error || kind == FrameKind::Nul
}

/// The octets that carry a run of frames.
pub open spec fn wires(frames: Seq<DataView>) -> Seq<u8>
    decreases frames.len(),
{
    if frames.len() == 0 {
        Seq::empty()
    } else {
        wires(frames.drop_last()) + frames.last().wire()
    }
}

/// What writing a queue gives: the channel and the queue afterwards, the frames to write, and
/// the error that ended it, if one did.
#[verifier::ext_equal]
pub struct Flushed {
    pub channel: ChannelView,
    pub queue: Seq<MessageView>,
    pub frames: Seq<DataView>,
    pub result: Result<(), Error>,
}

/// Writes as much of a queue as the channel's window allows, in order.
pub open spec fn flushed(channel: ChannelView, queue: Seq<MessageView>, max: u32) -> Flushed
    decreases queue.len(),
{
    if queue.len() == 0 || (channel.writable() == 0 && queue[0].payload.len() > 0) {
        Flushed { channel, queue, frames: Seq::empty(), result: Ok(()) }
    } else {
        let front = queue[0];
        match channel.emit(front.kind, front.msgno, front.ansno, front.payload, max) {
            Err(e) => Flushed { channel, queue, frames: Seq::empty(), result: Err(e) },
            Ok((after, emitted)) => if emitted.remaining.len() == 0 {
                let rest = flushed(after, queue.drop_first(), max);
                Flushed { frames: emitted.frames + rest.frames, ..rest }
            } else {
                Flushed {
                    channel: after,
                    queue: queue.update(
                        0,
                        MessageView { payload: emitted.remaining, ..front },
                    ),
                    frames: emitted.frames,
                    result: Ok(()),
                }
            },
        }
    }
}

/// The octets that carry two runs of frames are those of the first and then those of the second.
proof fn lemma_wires_concat(a: Seq<DataView>, b: Seq<DataView>)
    ensures
        wires(a + b) == wires(a) + wires(b),
    decreases b.len(),
{
    if b.len() == 0 {
        assert(a + b =~= a);
        assert(wires(a) + wires(b) =~= wires(a));
    } else {
        lemma_wires_concat(a, b.drop_last());
        assert((a + b).drop_last() =~= a + b.drop_last());
        assert(wires(a) + (wires(b.drop_last()) + b.last().wire()) =~= wires(a) + wires(
            b.drop_last(),
        ) + b.last().wire());
    }
}

/// The entry of a map of lists, which is empty where there is none.
pub open spec fn entry<T>(m: Map<u32, Seq<T>>, key: u32) -> Seq<T> {
    if m.contains_key(key) {
        m[key]
    } else {
        Seq::empty()
    }
}

/// What a session knows, apart from the octets that do not yet make a frame.
#[verifier::ext_equal]
pub struct CoreView {
    pub config: ConfigView,
    pub state: State,
    pub peer_greeting: Option<GreetingView>,
    /// Channel 0.
    pub zero: ChannelView,
    /// The open channels, by number.
    pub channels: Map<u32, ChannelView>,
    /// What waits to be written on each channel, in order.
    pub queues: Map<u32, Seq<MessageView>>,
    /// What the requests made on channel 0 asked for, by message number.
    pub pending: Map<u32, Pending>,
    /// Message numbers received on each channel, in arrival order, still awaiting a reply.
    pub reply_order: Map<u32, Seq<u32>>,
    /// Replies produced before their turn, by channel and then by message number.
    pub held_replies: Map<u32, Map<u32, Seq<MessageView>>>,
    /// The channels asked for and not yet answered.
    pub half_open: Map<u32, ProfileView>,
    /// Octets received on each channel and not yet acknowledged.
    pub unacked: Map<u32, u32>,
    /// The next channel number to ask for.
    pub next_channel: u32,
    /// Octets to write to the transport.
    pub outbound: Seq<u8>,
    /// What happened, for the layer above.
    pub events: Seq<EventView>,
}

/// A session after a step, and whether the step succeeded.
pub type Step = (CoreView, Result<(), Error>);

impl CoreView {
    /// Whether a channel is there to be spoken of: channel 0 always is.
    pub open spec fn knows(self, number: u32) -> bool {
        number == GREETING_CHANNEL || self.channels.contains_key(number)
    }

    /// A channel by its number.
    pub open spec fn channel(self, number: u32) -> ChannelView {
        if number == GREETING_CHANNEL {
            self.zero
        } else {
            self.channels[number]
        }
    }

    /// The session with a channel replaced.
    pub open spec fn with_channel(self, number: u32, c: ChannelView) -> CoreView {
        if number == GREETING_CHANNEL {
            CoreView { zero: c, ..self }
        } else {
            CoreView { channels: self.channels.insert(number, c), ..self }
        }
    }

    /// The session with one more event to report.
    pub open spec fn with_event(self, e: EventView) -> CoreView {
        CoreView { events: self.events.push(e), ..self }
    }

    /// The session with a payload added to a channel's queue.
    pub open spec fn enqueue(self, number: u32, m: MessageView) -> CoreView {
        CoreView { queues: self.queues.insert(number, entry(self.queues, number).push(m)), ..self }
    }

    /// Writes as much of a channel's queue as its window allows.
    pub open spec fn flush(self, number: u32) -> Step {
        if !self.queues.contains_key(number) || !self.knows(number) {
            (self, Ok(()))
        } else {
            let f = flushed(
                self.channel(number),
                self.queues[number],
                self.config.max_frame_size,
            );
            (
                CoreView {
                    queues: self.queues.insert(number, f.queue),
                    outbound: self.outbound + wires(f.frames),
                    ..self.with_channel(number, f.channel)
                },
                f.result,
            )
        }
    }

    /// Charges received octets against the incoming window, emitting a `SEQ` once half of the
    /// window has been consumed.
    pub open spec fn acknowledge(self, number: u32, octets: u32) -> Step {
        if !self.knows(number) {
            (self, Ok(()))
        } else {
            let c = self.channel(number);
            let before: int = if self.unacked.contains_key(number) {
                self.unacked[number] as int
            } else {
                0
            };
            let total: u32 = if before + octets > u32::MAX {
                u32::MAX
            } else {
                (before + octets) as u32
            };
            let threshold: u32 = if c.recv_window.size / 2 > 1 {
                c.recv_window.size / 2
            } else {
                1
            };
            let counted = CoreView { unacked: self.unacked.insert(number, total), ..self };
            if total < threshold {
                (counted, Ok(()))
            } else {
                let after = c.consume(total);
                match after.recv_window.seq_frame(after.number).checked() {
                    Err(e) => (counted.with_channel(number, after), Err(e)),
                    Ok(seq) => (
                        CoreView {
                            unacked: self.unacked.insert(number, 0),
                            outbound: self.outbound + seq.wire(),
                            ..self.with_channel(number, after)
                        },
                        Ok(()),
                    ),
                }
            }
        }
    }

    /// Takes an incoming `SEQ` frame.
    pub open spec fn handle_seq(self, f: SeqView) -> Step {
        if !self.knows(f.channel) {
            (self, Err(Error::NoSuchChannel { channel: f.channel }))
        } else {
            self.with_channel(f.channel, self.channel(f.channel).apply_seq(f)).flush(f.channel)
        }
    }

    /// Takes an incoming data frame for a channel other than channel 0.
    pub open spec fn handle_channel_data(self, f: DataView) -> Step {
        if !self.channels.contains_key(f.channel) {
            (self, Err(Error::NoSuchChannel { channel: f.channel }))
        } else {
            match self.channels[f.channel].accept(f) {
                (c, Err(e)) => (self.with_channel(f.channel, c), Err(e)),
                (c, Ok(complete)) => match self.with_channel(f.channel, c).acknowledge(
                    f.channel,
                    f.payload.len() as u32,
                ) {
                    (s, Err(e)) => (s, Err(e)),
                    (s, Ok(_)) => match complete {
                        None => (s, Ok(())),
                        Some(message) => {
                            let ordered = if message.kind == FrameKind::Msg {
                                CoreView {
                                    reply_order: s.reply_order.insert(
                                        f.channel,
                                        entry(s.reply_order, f.channel).push(message.msgno),
                                    ),
                                    ..s
                                }
                            } else {
                                s
                            };
                            (
                                ordered.with_event(
                                    EventView::MessageReceived { channel: f.channel, message },
                                ),
                                Ok(()),
                            )
                        },
                    },
                },
            }
        }
    }

    /// Takes the peer's greeting.
    pub open spec fn handle_greeting(self, f: DataView) -> Step {
        match GreetingView::of_frame(f) {
            Err(e) => (self, Err(e)),
            Ok(greeting) => match self.zero.accept(f) {
                (c, Err(e)) => (CoreView { zero: c, ..self }, Err(e)),
                (c, Ok(_)) => match (CoreView { zero: c, ..self }).acknowledge(
                    GREETING_CHANNEL,
                    f.payload.len() as u32,
                ) {
                    (s, Err(e)) => (s, Err(e)),
                    (s, Ok(_)) => (
                        CoreView {
                            peer_greeting: Some(greeting),
                            state: State::Ready,
                            ..s
                        }.with_event(EventView::GreetingReceived(greeting)),
                        Ok(()),
                    ),
                },
            },
        }
    }

    /// Takes a frame of channel management.
    pub open spec fn handle_management(self, f: DataView) -> Step {
        match self.zero.accept(f) {
            (c, Err(e)) => (CoreView { zero: c, ..self }, Err(e)),
            (c, Ok(complete)) => match (CoreView { zero: c, ..self }).acknowledge(
                GREETING_CHANNEL,
                f.payload.len() as u32,
            ) {
                (s, Err(e)) => (s, Err(e)),
                (s, Ok(_)) => match complete {
                    None => (s, Ok(())),
                    Some(message) => match ManagementView::of_payload(message.payload) {
                        Err(e) => (s, Err(e)),
                        Ok(m) => s.dispatch(message.kind, message.msgno, m),
                    },
                },
            },
        }
    }

    /// The session once the request under `msgno` has been answered.
    pub open spec fn answered(self, msgno: u32) -> CoreView {
        CoreView {
            pending: self.pending.remove(msgno),
            zero: ChannelView { outstanding: self.zero.outstanding.remove(msgno), ..self.zero },
            ..self
        }
    }

    /// Acts on a management message: a request is reported, a reply is matched with the request
    /// it answers.
    pub open spec fn dispatch(self, kind: FrameKind, msgno: u32, m: ManagementView) -> Step {
        let unasked = (
            CoreView { pending: self.pending.remove(msgno), ..self },
            Err::<(), Error>(Error::UnknownMsgNo { msgno }),
        );
        match (kind, m) {
            (FrameKind::Msg, ManagementView::Start(start)) => (
                self.with_event(
                    EventView::StartRequested { channel: start.number, msgno, start },
                ),
                Ok(()),
            ),
            (FrameKind::Msg, ManagementView::Close(close)) => (
                self.with_event(
                    EventView::CloseRequested { channel: close.number, msgno, close },
                ),
                Ok(()),
            ),
            (FrameKind::Rpy, ManagementView::Profile(profile)) => match self.pending.get(msgno) {
                Some(Pending::Start(number)) => {
                    let s = self.answered(msgno);
                    (
                        CoreView {
                            half_open: s.half_open.remove(number),
                            channels: s.channels.insert(
                                number,
                                ChannelView::fresh(number, profile.uri, s.config.window_size),
                            ),
                            ..s
                        }.with_event(EventView::ChannelOpened { channel: number, profile }),
                        Ok(()),
                    )
                },
                _ => unasked,
            },
            (FrameKind::Rpy, ManagementView::Okay) => match self.pending.get(msgno) {
                Some(Pending::Close(number)) => (
                    self.answered(msgno).finish_close(number),
                    Ok(()),
                ),
                _ => unasked,
            },
            (FrameKind::Error, ManagementView::Error(error)) => match self.pending.get(msgno) {
                Some(Pending::Start(number)) => {
                    let s = self.answered(msgno);
                    (
                        CoreView { half_open: s.half_open.remove(number), ..s }.with_event(
                            EventView::StartRefused { channel: number, error },
                        ),
                        Ok(()),
                    )
                },
                Some(Pending::Close(number)) => (
                    self.answered(msgno).with_event(
                        EventView::CloseRefused { channel: number, error },
                    ),
                    Ok(()),
                ),
                None => (self, Err(Error::UnknownMsgNo { msgno })),
            },
            _ => (self, Err(Error::UnexpectedElement)),
        }
    }

    /// Takes an incoming frame.
    pub open spec fn handle_frame(self, f: FrameView) -> Step {
        match f {
            FrameView::Flow(seq) => self.handle_seq(seq),
            FrameView::Data(data) => if data.channel != GREETING_CHANNEL {
                self.handle_channel_data(data)
            } else if self.state == State::AwaitingGreeting {
                self.handle_greeting(data)
            } else {
                self.handle_management(data)
            },
        }
    }

    /// The session once a channel, or with channel 0 everything, is closed.
    pub open spec fn finish_close(self, channel: u32) -> CoreView {
        if channel == GREETING_CHANNEL {
            CoreView {
                state: State::Closed,
                channels: Map::empty(),
                queues: Map::empty(),
                unacked: Map::empty(),
                reply_order: Map::empty(),
                held_replies: Map::empty(),
                ..self
            }.with_event(EventView::SessionClosed)
        } else {
            CoreView {
                channels: self.channels.remove(channel),
                queues: self.queues.remove(channel),
                unacked: self.unacked.remove(channel),
                reply_order: self.reply_order.remove(channel),
                held_replies: self.held_replies.remove(channel),
                ..self
            }.with_event(EventView::ChannelClosed { channel })
        }
    }

    /// Writes a management message on channel 0.
    pub open spec fn write_zero(self, kind: FrameKind, msgno: u32, m: ManagementView) -> Step {
        self.enqueue(
            GREETING_CHANNEL,
            MessageView { kind, msgno, ansno: None, payload: m.payload() },
        ).flush(GREETING_CHANNEL)
    }

    /// Sends a management reply on channel 0.
    pub open spec fn reply(self, kind: FrameKind, msgno: u32, m: ManagementView) -> Step {
        CoreView {
            zero: ChannelView {
                awaiting_reply: self.zero.awaiting_reply.remove(msgno),
                ..self.zero
            },
            ..self
        }.write_zero(kind, msgno, m)
    }

    /// Sends a management request on channel 0 and remembers what it was asking for.
    pub open spec fn request(self, m: ManagementView, pending: Pending) -> Step {
        match self.zero.allocate() {
            (zero, Err(e)) => (CoreView { zero, ..self }, Err(e)),
            (zero, Ok(msgno)) => CoreView {
                zero,
                pending: self.pending.insert(msgno, pending),
                ..self
            }.write_zero(FrameKind::Msg, msgno, m),
        }
    }

    /// The error for a request made before the greetings were exchanged, or after the session
    /// was closed.
    pub open spec fn not_ready() -> Error {
        Error::ChannelNumber { reason: "greetings have not been exchanged yet" }
    }

    /// Asks the peer for a new channel.
    pub open spec fn start_channel(self, profile: ProfileView) -> (CoreView, Result<u32, Error>) {
        if self.state != State::Ready {
            (self, Err(CoreView::not_ready()))
        } else {
            let number = self.next_channel;
            let start = StartView { number, server_name: None, profiles: seq![profile] };
            match (CoreView {
                next_channel: window::advanced(number, 2),
                half_open: self.half_open.insert(number, profile),
                ..self
            }).request(ManagementView::Start(start), Pending::Start(number)) {
                (s, Ok(_)) => (s, Ok(number)),
                (s, Err(e)) => (s, Err(e)),
            }
        }
    }

    /// Accepts a channel the peer asked for.
    pub open spec fn accept_start(self, channel: u32, msgno: u32, profile: ProfileView) -> Step {
        if channel == GREETING_CHANNEL || self.config.role.has(channel) {
            (self, Err(Error::ChannelNumber { reason: "the peer may not allocate that number" }))
        } else if self.channels.contains_key(channel) {
            (self, Err(Error::ChannelNumber { reason: "already open" }))
        } else {
            CoreView {
                channels: self.channels.insert(
                    channel,
                    ChannelView::fresh(channel, profile.uri, self.config.window_size),
                ),
                ..self
            }.reply(FrameKind::Rpy, msgno, ManagementView::Profile(profile))
        }
    }

    /// Asks the peer to close a channel.
    pub open spec fn close_channel(self, channel: u32) -> Step {
        if self.state != State::Ready {
            (self, Err(CoreView::not_ready()))
        } else if !self.knows(channel) {
            (self, Err(Error::NoSuchChannel { channel }))
        } else {
            self.request(
                ManagementView::Close(
                    CloseView { number: channel, code: code::SUCCESS, lang: None, text: None },
                ),
                Pending::Close(channel),
            )
        }
    }

    /// Accepts a close the peer asked for.
    pub open spec fn accept_close(self, channel: u32, msgno: u32) -> Step {
        match self.reply(FrameKind::Rpy, msgno, ManagementView::Okay) {
            (s, Ok(_)) => (s.finish_close(channel), Ok(())),
            (s, Err(e)) => (s, Err(e)),
        }
    }

    /// Whether a reply for `msgno` may be written now: it answers the message that has waited
    /// longest, or nothing is waiting.
    pub open spec fn is_next_reply(self, channel: u32, msgno: u32) -> bool {
        let order = entry(self.reply_order, channel);
        order.len() == 0 || order[0] == msgno
    }

    /// The session with a reply put aside until its turn.
    pub open spec fn hold(self, channel: u32, m: MessageView) -> CoreView {
        let held = if self.held_replies.contains_key(channel) {
            self.held_replies[channel]
        } else {
            Map::empty()
        };
        CoreView {
            held_replies: self.held_replies.insert(
                channel,
                held.insert(m.msgno, entry(held, m.msgno).push(m)),
            ),
            ..self
        }
    }

    /// The session once the message that has waited longest on a channel is answered.
    pub open spec fn pop_order(self, channel: u32) -> CoreView {
        if entry(self.reply_order, channel).len() == 0 {
            self
        } else {
            CoreView {
                reply_order: self.reply_order.insert(
                    channel,
                    self.reply_order[channel].drop_first(),
                ),
                ..self
            }
        }
    }

    /// The replies held for the message whose turn it is, if there are any.
    pub open spec fn ready(self, channel: u32) -> Option<Seq<MessageView>> {
        let order = entry(self.reply_order, channel);
        if order.len() > 0 && self.held_replies.contains_key(channel)
            && self.held_replies[channel].contains_key(order[0]) {
            Some(self.held_replies[channel][order[0]])
        } else {
            None
        }
    }

    /// The session with the replies whose turn it is moved to the channel's queue and written.
    pub open spec fn release_ready(self, channel: u32) -> Step {
        let next = self.reply_order[channel][0];
        CoreView {
            held_replies: self.held_replies.insert(
                channel,
                self.held_replies[channel].remove(next),
            ),
            queues: self.queues.insert(
                channel,
                entry(self.queues, channel) + self.held_replies[channel][next],
            ),
            ..self
        }.flush(channel)
    }

    /// Releases the held replies whose turn has come, one message after the other, as long as
    /// each of them is complete.
    pub open spec fn release(self, channel: u32) -> Step
        decreases entry(self.reply_order, channel).len(),
    {
        match self.ready(channel) {
            None => (self, Ok(())),
            Some(held) => match self.release_ready(channel) {
                (s, Err(e)) => (s, Err(e)),
                (s, Ok(_)) => if !(exists|i: int|
                    0 <= i < held.len() && completes(#[trigger] held[i].kind)) {
                    (s, Ok(()))
                } else {
                    s.pop_order(channel).release(channel)
                },
            },
        }
    }

    /// Retires a finished exchange and releases whatever was waiting behind it.
    pub open spec fn reply_finished(self, channel: u32, msgno: u32) -> Step {
        let order = entry(self.reply_order, channel);
        if order.len() > 0 && order[0] == msgno {
            self.pop_order(channel).release(channel)
        } else {
            self.release(channel)
        }
    }

    /// The session once a channel has been told of a reply: a `NUL` ends the numbering of the
    /// answers to its message.
    pub open spec fn told(self, channel: u32, kind: FrameKind, msgno: u32) -> CoreView {
        let c = self.channels[channel];
        if kind == FrameKind::Nul {
            self.with_open_channel(
                channel,
                ChannelView { next_ansno: c.next_ansno.remove(msgno), ..c },
            )
        } else {
            self
        }
    }

    /// The session with an open channel replaced.
    pub open spec fn with_open_channel(self, number: u32, c: ChannelView) -> CoreView {
        CoreView { channels: self.channels.insert(number, c), ..self }
    }

    /// Queues a payload for a channel, fragmenting and pacing it against the peer's window. A
    /// reply whose turn has not come is held.
    pub open spec fn send(
        self,
        channel: u32,
        kind: FrameKind,
        msgno: u32,
        ansno: Option<u32>,
        payload: Seq<u8>,
    ) -> Step {
        if !self.channels.contains_key(channel) {
            (self, Err(Error::NoSuchChannel { channel }))
        } else if kind == FrameKind::Ans && ansno is None {
            (self, Err(Error::MissingField { field: "ansno" }))
        } else {
            let s = self.told(channel, kind, msgno);
            let m = MessageView { kind, msgno, ansno, payload };
            if answers(kind) && !s.is_next_reply(channel, msgno) {
                (s.hold(channel, m), Ok(()))
            } else {
                match s.enqueue(channel, m).flush(channel) {
                    (t, Err(e)) => (t, Err(e)),
                    (t, Ok(_)) => if completes(kind) {
                        t.reply_finished(channel, msgno)
                    } else {
                        (t, Ok(()))
                    },
                }
            }
        }
    }

    /// Sends a `MSG` on a channel, allocating a message number for it.
    pub open spec fn send_msg(self, channel: u32, payload: Seq<u8>) -> (
        CoreView,
        Result<u32, Error>,
    ) {
        if !self.channels.contains_key(channel) {
            (self, Err(Error::NoSuchChannel { channel }))
        } else {
            match self.channels[channel].allocate() {
                (c, Err(e)) => (self.with_open_channel(channel, c), Err(e)),
                (c, Ok(msgno)) => match self.with_open_channel(channel, c).send(
                    channel,
                    FrameKind::Msg,
                    msgno,
                    None,
                    payload,
                ) {
                    (s, Err(e)) => (s, Err(e)),
                    (s, Ok(_)) => (s, Ok(msgno)),
                },
            }
        }
    }

    /// A session before its greeting is queued.
    pub open spec fn blank(config: ConfigView) -> CoreView {
        CoreView {
            config,
            state: State::AwaitingGreeting,
            peer_greeting: None,
            zero: ChannelView::fresh(GREETING_CHANNEL, Seq::empty(), config.window_size),
            channels: Map::empty(),
            queues: Map::empty(),
            pending: Map::empty(),
            reply_order: Map::empty(),
            held_replies: Map::empty(),
            half_open: Map::empty(),
            unacked: Map::empty(),
            next_channel: config.role.first(),
            outbound: Seq::empty(),
            events: Seq::empty(),
        }
    }

    /// A session as it starts: its greeting written as far as the window allows.
    pub open spec fn fresh(config: ConfigView) -> CoreView {
        CoreView::blank(config).enqueue(
            GREETING_CHANNEL,
            MessageView {
                kind: FrameKind::Rpy,
                msgno: 0,
                ansno: None,
                payload: config.greeting.payload(),
            },
        ).flush(GREETING_CHANNEL).0
    }
}

// ---- the machine -----------------------------------------------------------------

/// The view of a list of queued payloads.
spec fn queue_view(q: VecDeque<Queued>) -> Seq<MessageView> {
    q@.map_values(|m: Queued| m@)
}

/// The view of the replies held on one channel.
spec fn held_view(m: BTreeMap<u32, VecDeque<Queued>>) -> Map<u32, Seq<MessageView>> {
    m@.map_values(|q: VecDeque<Queued>| queue_view(q))
}

/// Everything a session holds but for the octets that do not yet make a frame.
#[derive(Debug)]
struct Core {
    config: Config,
    state: State,
    peer_greeting: Option<Greeting>,
    zero: Channel,
    channels: BTreeMap<u32, Channel>,
    queues: BTreeMap<u32, VecDeque<Queued>>,
    pending: BTreeMap<u32, Pending>,
    reply_order: BTreeMap<u32, VecDeque<u32>>,
    held_replies: BTreeMap<u32, BTreeMap<u32, VecDeque<Queued>>>,
    half_open: BTreeMap<u32, Profile>,
    unacked: BTreeMap<u32, u32>,
    next_channel: u32,
    outbound: BytesMut,
    events: VecDeque<Event>,
}

impl View for Core {
    type V = CoreView;

    closed spec fn view(&self) -> CoreView {
        CoreView {
            config: self.config@,
            state: self.state,
            peer_greeting: match self.peer_greeting {
                Some(g) => Some(g@),
                None => None,
            },
            zero: self.zero@,
            channels: self.channels@.map_values(|c: Channel| c@),
            queues: self.queues@.map_values(|q: VecDeque<Queued>| queue_view(q)),
            pending: self.pending@,
            reply_order: self.reply_order@.map_values(|q: VecDeque<u32>| q@),
            held_replies: self.held_replies@.map_values(
                |m: BTreeMap<u32, VecDeque<Queued>>| held_view(m),
            ),
            half_open: self.half_open@.map_values(|p: Profile| p@),
            unacked: self.unacked@,
            next_channel: self.next_channel,
            outbound: octets::buffered(self.outbound),
            events: self.events@.map_values(|e: Event| e@),
        }
    }
}

impl Core {
    // ---- the tables --------------------------------------------------------------

    fn take_channel(&mut self, number: u32) -> (r: Option<Channel>)
        ensures
            match r {
                Some(c) => {
                    &&& old(self)@.channels.contains_key(number)
                    &&& c@ == old(self)@.channels[number]
                    &&& final(self)@ == (CoreView {
                        channels: old(self)@.channels.remove(number),
                        ..old(self)@
                    })
                },
                None => !old(self)@.channels.contains_key(number) && final(self)@ == old(self)@,
            },
    {
        let ghost before = self@;
        let r = self.channels.remove(&number);
        assert(self@.channels =~= before.channels.remove(number));
        assert(r is None ==> self@.channels =~= before.channels);
        r
    }

    fn put_channel(&mut self, number: u32, c: Channel)
        ensures
            final(self)@ == (CoreView {
                channels: old(self)@.channels.insert(number, c@),
                ..old(self)@
            }),
    {
        let ghost before = self@;
        self.channels.insert(number, c);
        assert(self@.channels =~= before.channels.insert(number, c@));
    }

    fn take_queue(&mut self, number: u32) -> (r: Option<VecDeque<Queued>>)
        ensures
            match r {
                Some(q) => {
                    &&& old(self)@.queues.contains_key(number)
                    &&& queue_view(q) == old(self)@.queues[number]
                    &&& final(self)@ == (CoreView {
                        queues: old(self)@.queues.remove(number),
                        ..old(self)@
                    })
                },
                None => !old(self)@.queues.contains_key(number) && final(self)@ == old(self)@,
            },
    {
        let ghost before = self@;
        let r = self.queues.remove(&number);
        assert(self@.queues =~= before.queues.remove(number));
        assert(r is None ==> self@.queues =~= before.queues);
        r
    }

    fn put_queue(&mut self, number: u32, q: VecDeque<Queued>)
        ensures
            final(self)@ == (CoreView {
                queues: old(self)@.queues.insert(number, queue_view(q)),
                ..old(self)@
            }),
    {
        let ghost before = self@;
        self.queues.insert(number, q);
        assert(self@.queues =~= before.queues.insert(number, queue_view(q)));
    }

    fn take_order(&mut self, number: u32) -> (r: Option<VecDeque<u32>>)
        ensures
            match r {
                Some(q) => {
                    &&& old(self)@.reply_order.contains_key(number)
                    &&& q@ == old(self)@.reply_order[number]
                    &&& final(self)@ == (CoreView {
                        reply_order: old(self)@.reply_order.remove(number),
                        ..old(self)@
                    })
                },
                None => !old(self)@.reply_order.contains_key(number) && final(self)@ == old(self)@,
            },
    {
        let ghost before = self@;
        let r = self.reply_order.remove(&number);
        assert(self@.reply_order =~= before.reply_order.remove(number));
        assert(r is None ==> self@.reply_order =~= before.reply_order);
        r
    }

    fn put_order(&mut self, number: u32, q: VecDeque<u32>)
        ensures
            final(self)@ == (CoreView {
                reply_order: old(self)@.reply_order.insert(number, q@),
                ..old(self)@
            }),
    {
        let ghost before = self@;
        self.reply_order.insert(number, q);
        assert(self@.reply_order =~= before.reply_order.insert(number, q@));
    }

    fn take_held(&mut self, number: u32) -> (r: Option<BTreeMap<u32, VecDeque<Queued>>>)
        ensures
            match r {
                Some(m) => {
                    &&& old(self)@.held_replies.contains_key(number)
                    &&& held_view(m) == old(self)@.held_replies[number]
                    &&& final(self)@ == (CoreView {
                        held_replies: old(self)@.held_replies.remove(number),
                        ..old(self)@
                    })
                },
                None => !old(self)@.held_replies.contains_key(number) && final(self)@
                    == old(self)@,
            },
    {
        let ghost before = self@;
        let r = self.held_replies.remove(&number);
        assert(self@.held_replies =~= before.held_replies.remove(number));
        assert(r is None ==> self@.held_replies =~= before.held_replies);
        r
    }

    fn put_held(&mut self, number: u32, m: BTreeMap<u32, VecDeque<Queued>>)
        ensures
            final(self)@ == (CoreView {
                held_replies: old(self)@.held_replies.insert(number, held_view(m)),
                ..old(self)@
            }),
    {
        let ghost before = self@;
        self.held_replies.insert(number, m);
        assert(self@.held_replies =~= before.held_replies.insert(number, held_view(m)));
    }

    fn push_event(&mut self, e: Event)
        ensures
            final(self)@ == old(self)@.with_event(e@),
    {
        let ghost before = self@;
        self.events.push_back(e);
        assert(self@.events =~= before.events.push(e@));
    }

    fn remove_half_open(&mut self, number: u32)
        ensures
            final(self)@ == (CoreView {
                half_open: old(self)@.half_open.remove(number),
                ..old(self)@
            }),
    {
        let ghost before = self@;
        self.half_open.remove(&number);
        assert(self@.half_open =~= before.half_open.remove(number));
    }

    // ---- incoming ----------------------------------------------------------------

    fn handle_frame(&mut self, frame: &Frame) -> (r: Result<(), Error>)
        ensures
            (final(self)@, r) == old(self)@.handle_frame(frame@),
    {
        match frame {
            Frame::Flow(seq) => self.handle_seq(seq),
            Frame::Data(data) => self.handle_data(data),
        }
    }

    fn handle_seq(&mut self, seq: &SeqFrame) -> (r: Result<(), Error>)
        ensures
            (final(self)@, r) == old(self)@.handle_seq(seq@),
    {
        let ghost before = self@;
        let number: u32 = seq.channel();
        if number == GREETING_CHANNEL {
            self.zero.apply_seq(seq);
        } else {
            match self.take_channel(number) {
                Some(mut channel) => {
                    channel.apply_seq(seq);
                    self.put_channel(number, channel);
                    assert(self@.channels =~= before.channels.insert(number, channel@));
                },
                None => {
                    return Err(Error::NoSuchChannel { channel: number });
                },
            }
        }
        self.flush(number)
    }

    fn handle_data(&mut self, frame: &DataFrame) -> (r: Result<(), Error>)
        ensures
            (final(self)@, r) == old(self)@.handle_frame(FrameView::Data(frame@)),
    {
        if frame.channel() == GREETING_CHANNEL {
            return self.handle_channel_zero(frame);
        }
        let ghost before = self@;
        let number: u32 = frame.channel();
        let mut channel = match self.take_channel(number) {
            Some(channel) => channel,
            None => return Err(Error::NoSuchChannel { channel: number }),
        };
        let complete = channel.accept(frame);
        self.put_channel(number, channel);
        assert(self@.channels =~= before.channels.insert(number, channel@));
        let complete = match complete {
            Ok(complete) => complete,
            Err(e) => return Err(e),
        };
        self.acknowledge(number, frame.size())?;
        if let Some(message) = complete {
            if message.kind == FrameKind::Msg {
                // Replies have to leave in the order the messages arrived, so the order is
                // recorded here rather than inferred from the message numbers, which say
                // nothing about arrival.
                self.record_arrival(number, message.msgno);
            }
            self.push_event(Event::MessageReceived { channel: number, message });
        }
        Ok(())
    }

    fn record_arrival(&mut self, number: u32, msgno: u32)
        ensures
            final(self)@ == (CoreView {
                reply_order: old(self)@.reply_order.insert(
                    number,
                    entry(old(self)@.reply_order, number).push(msgno),
                ),
                ..old(self)@
            }),
    {
        let ghost before = self@;
        let mut order = match self.take_order(number) {
            Some(order) => order,
            None => VecDeque::new(),
        };
        order.push_back(msgno);
        self.put_order(number, order);
        assert(self@.reply_order =~= before.reply_order.insert(
            number,
            entry(before.reply_order, number).push(msgno),
        ));
    }

    fn handle_channel_zero(&mut self, frame: &DataFrame) -> (r: Result<(), Error>)
        requires
            frame@.channel == GREETING_CHANNEL,
        ensures
            (final(self)@, r) == old(self)@.handle_frame(FrameView::Data(frame@)),
    {
        if self.state == State::AwaitingGreeting {
            let greeting = Greeting::from_frame(frame)?;
            match self.zero.accept(frame) {
                Ok(_) => {},
                Err(e) => return Err(e),
            }
            self.acknowledge(GREETING_CHANNEL, frame.size())?;
            self.peer_greeting = Some(greeting.clone());
            self.state = State::Ready;
            self.push_event(Event::GreetingReceived(greeting));
            return Ok(());
        }
        let complete = match self.zero.accept(frame) {
            Ok(complete) => complete,
            Err(e) => return Err(e),
        };
        self.acknowledge(GREETING_CHANNEL, frame.size())?;
        let message = match complete {
            Some(message) => message,
            None => return Ok(()),
        };
        let management = Management::from_payload(octets::bytes_slice(&message.payload))?;
        self.dispatch_management(message.kind, message.msgno, management)
    }

    fn dispatch_management(&mut self, kind: FrameKind, msgno: u32, management: Management) -> (r:
        Result<(), Error>)
        ensures
            (final(self)@, r) == old(self)@.dispatch(kind, msgno, management@),
    {
        let ghost before = self@;
        match (kind, management) {
            (FrameKind::Msg, Management::Start(start)) => {
                self.push_event(
                    Event::StartRequested { channel: start.number, msgno, start },
                );
            },
            (FrameKind::Msg, Management::Close(close)) => {
                self.push_event(
                    Event::CloseRequested { channel: close.number, msgno, close },
                );
            },
            (FrameKind::Rpy, Management::Profile(profile)) => {
                let number: u32 = match self.pending.remove(&msgno) {
                    Some(Pending::Start(number)) => number,
                    _ => {
                        assert(self@.pending =~= before.pending.remove(msgno));
                        return Err(Error::UnknownMsgNo { msgno });
                    },
                };
                self.zero.release_msgno(msgno);
                assert(self@ =~= before.answered(msgno));
                self.remove_half_open(number);
                let channel = Channel::with_window_size(
                    number,
                    profile.uri.as_str(),
                    self.config.window_size,
                );
                self.put_channel(number, channel);
                self.push_event(Event::ChannelOpened { channel: number, profile });
            },
            (FrameKind::Rpy, Management::Okay) => {
                let number: u32 = match self.pending.remove(&msgno) {
                    Some(Pending::Close(number)) => number,
                    _ => {
                        assert(self@.pending =~= before.pending.remove(msgno));
                        return Err(Error::UnknownMsgNo { msgno });
                    },
                };
                self.zero.release_msgno(msgno);
                assert(self@ =~= before.answered(msgno));
                self.finish_close(number);
            },
            (FrameKind::Error, Management::Error(error)) => {
                let pending = match self.pending.remove(&msgno) {
                    Some(pending) => pending,
                    None => {
                        assert(self@.pending =~= before.pending);
                        return Err(Error::UnknownMsgNo { msgno });
                    },
                };
                self.zero.release_msgno(msgno);
                assert(self@ =~= before.answered(msgno));
                match pending {
                    Pending::Start(number) => {
                        self.remove_half_open(number);
                        self.push_event(Event::StartRefused { channel: number, error });
                    },
                    Pending::Close(number) => {
                        self.push_event(Event::CloseRefused { channel: number, error });
                    },
                }
            },
            _ => {
                return Err(Error::UnexpectedElement);
            },
        }
        Ok(())
    }

    // ---- outgoing ----------------------------------------------------------------

    fn start_channel(&mut self, profile: Profile) -> (r: Result<u32, Error>)
        ensures
            (final(self)@, r) == old(self)@.start_channel(profile@),
    {
        self.require_ready()?;
        let ghost before = self@;
        let number: u32 = self.next_channel;
        self.next_channel = number.wrapping_add(2);
        let start = Start::new(number, profile.clone());
        self.half_open.insert(number, profile);
        assert(self@.half_open =~= before.half_open.insert(number, profile@));
        self.request(Management::Start(start), Pending::Start(number))?;
        Ok(number)
    }

    fn accept_start(&mut self, channel: u32, msgno: u32, profile: Profile) -> (r: Result<
        (),
        Error,
    >)
        ensures
            (final(self)@, r) == old(self)@.accept_start(channel, msgno, profile@),
    {
        if channel == GREETING_CHANNEL || self.config.role.owns(channel) {
            return Err(Error::ChannelNumber { reason: "the peer may not allocate that number" });
        }
        if self.channels.contains_key(&channel) {
            return Err(Error::ChannelNumber { reason: "already open" });
        }
        let opened = Channel::with_window_size(
            channel,
            profile.uri.as_str(),
            self.config.window_size,
        );
        self.put_channel(channel, opened);
        self.reply(FrameKind::Rpy, msgno, &Management::Profile(profile))
    }

    fn close_channel(&mut self, channel: u32) -> (r: Result<(), Error>)
        ensures
            (final(self)@, r) == old(self)@.close_channel(channel),
    {
        self.require_ready()?;
        if channel != GREETING_CHANNEL && !self.channels.contains_key(&channel) {
            return Err(Error::NoSuchChannel { channel });
        }
        self.request(Management::Close(Close::new(channel)), Pending::Close(channel))
    }

    fn accept_close(&mut self, channel: u32, msgno: u32) -> (r: Result<(), Error>)
        ensures
            (final(self)@, r) == old(self)@.accept_close(channel, msgno),
    {
        self.reply(FrameKind::Rpy, msgno, &Management::Okay)?;
        self.finish_close(channel);
        Ok(())
    }

    fn send(
        &mut self,
        channel: u32,
        kind: FrameKind,
        msgno: u32,
        ansno: Option<u32>,
        payload: Bytes,
    ) -> (r: Result<(), Error>)
        ensures
            (final(self)@, r) == old(self)@.send(
                channel,
                kind,
                msgno,
                ansno,
                octets::octets(payload),
            ),
    {
        let ghost before = self@;
        if !self.channels.contains_key(&channel) {
            return Err(Error::NoSuchChannel { channel });
        }
        if kind == FrameKind::Ans && ansno.is_none() {
            return Err(Error::MissingField { field: "ansno" });
        }
        let mut state = match self.take_channel(channel) {
            Some(state) => state,
            None => return Err(Error::NoSuchChannel { channel }),
        };
        if kind == FrameKind::Nul {
            state.finish_answers(msgno);
        }
        self.put_channel(channel, state);
        assert(self@.channels =~= before.channels.insert(channel, state@));
        assert(state@ == before.channels[channel] ==> self@.channels =~= before.channels);
        let queued = Queued { kind, msgno, ansno, payload };
        if is_reply(kind) && !self.is_next_reply(channel, msgno) {
            // Not this message's turn yet. Replies on a channel have to leave in the order
            // the messages arrived, and a peer with ordered delivery enabled will sit waiting
            // for the one it expects rather than accept a later one. Hold it.
            self.hold(channel, queued);
            return Ok(());
        }
        self.enqueue(channel, queued);
        self.flush(channel)?;
        if completes_reply(kind) {
            self.reply_finished(channel, msgno)?;
        }
        Ok(())
    }

    /// Whether a reply for `msgno` may be written now.
    ///
    /// A channel with nothing recorded, as for a peer replying to a message this end never
    /// saw, is left alone rather than blocked, since ordering only means anything relative to
    /// messages actually received.
    fn is_next_reply(&self, channel: u32, msgno: u32) -> (r: bool)
        ensures
            r == self@.is_next_reply(channel, msgno),
    {
        match self.reply_order.get(&channel) {
            Some(order) => order.len() == 0 || order[0] == msgno,
            None => true,
        }
    }

    fn hold(&mut self, channel: u32, queued: Queued)
        ensures
            final(self)@ == old(self)@.hold(channel, queued@),
    {
        let ghost before = self@;
        let mut held = match self.take_held(channel) {
            Some(held) => held,
            None => BTreeMap::new(),
        };
        let ghost was = held_view(held);
        assert(!before.held_replies.contains_key(channel) ==> was =~= Map::empty());
        let msgno: u32 = queued.msgno;
        let mut waiting = match held.remove(&msgno) {
            Some(waiting) => waiting,
            None => VecDeque::new(),
        };
        let ghost had = queue_view(waiting);
        assert(had =~= entry(was, msgno));
        waiting.push_back(queued);
        assert(queue_view(waiting) =~= had.push(queued@));
        held.insert(msgno, waiting);
        assert(held_view(held) =~= was.insert(msgno, had.push(queued@)));
        self.put_held(channel, held);
        assert(self@.held_replies =~= before.hold(channel, queued@).held_replies);
    }

    /// Drops the first of the messages that await a reply on a channel.
    fn pop_order(&mut self, channel: u32)
        ensures
            final(self)@ == old(self)@.pop_order(channel),
    {
        let ghost before = self@;
        if let Some(mut order) = self.take_order(channel) {
            let ghost had = order@;
            if order.len() > 0 {
                let _ = order.pop_front();
                assert(order@ =~= had.drop_first());
            }
            self.put_order(channel, order);
            assert(self@.reply_order =~= before.pop_order(channel).reply_order);
        }
    }

    /// Retires a finished exchange and releases whatever was waiting behind it.
    fn reply_finished(&mut self, channel: u32, msgno: u32) -> (r: Result<(), Error>)
        ensures
            (final(self)@, r) == old(self)@.reply_finished(channel, msgno),
    {
        let first = match self.reply_order.get(&channel) {
            Some(order) => order.len() > 0 && order[0] == msgno,
            None => false,
        };
        if first {
            self.pop_order(channel);
        }
        // Releasing one message can unblock the next, and so on down the queue.
        let ghost start = self@;
        loop
            invariant
                start.release(channel) == self@.release(channel),
                start.release(channel) == old(self)@.reply_finished(channel, msgno),
            decreases entry(self@.reply_order, channel).len(),
        {
            let ghost here = self@;
            let next: u32 = match self.reply_order.get(&channel) {
                Some(order) => if order.len() == 0 {
                    return Ok(());
                } else {
                    order[0]
                },
                None => return Ok(()),
            };
            let held = match self.take_ready(channel, next) {
                Some(held) => held,
                None => return Ok(()),
            };
            let ghost waiting = queue_view(held);
            let finished = self.enqueue_all(channel, held);
            proof {
                assert(here.ready(channel) == Some(waiting));
                assert(self@ =~= CoreView {
                    held_replies: here.held_replies.insert(
                        channel,
                        here.held_replies[channel].remove(next),
                    ),
                    queues: here.queues.insert(
                        channel,
                        entry(here.queues, channel) + here.held_replies[channel][next],
                    ),
                    ..here
                });
            }
            self.flush(channel)?;
            if !finished {
                return Ok(());
            }
            self.pop_order(channel);
        }
    }

    /// Takes the replies held for one message, if there are any.
    fn take_ready(&mut self, channel: u32, msgno: u32) -> (r: Option<VecDeque<Queued>>)
        ensures
            match r {
                Some(held) => {
                    &&& old(self)@.held_replies.contains_key(channel)
                    &&& old(self)@.held_replies[channel].contains_key(msgno)
                    &&& queue_view(held) == old(self)@.held_replies[channel][msgno]
                    &&& final(self)@ == (CoreView {
                        held_replies: old(self)@.held_replies.insert(
                            channel,
                            old(self)@.held_replies[channel].remove(msgno),
                        ),
                        ..old(self)@
                    })
                },
                None => {
                    &&& !(old(self)@.held_replies.contains_key(channel)
                        && old(self)@.held_replies[channel].contains_key(msgno))
                    &&& final(self)@ == old(self)@
                },
            },
    {
        let ghost before = self@;
        let mut held = match self.take_held(channel) {
            Some(held) => held,
            None => return None,
        };
        let ghost was = held_view(held);
        let r = held.remove(&msgno);
        assert(held_view(held) =~= was.remove(msgno));
        self.put_held(channel, held);
        assert(self@.held_replies =~= before.held_replies.insert(channel, was.remove(msgno)));
        assert(r is None ==> self@.held_replies =~= before.held_replies) by {
            if r is None {
                assert(was.remove(msgno) =~= was);
            }
        }
        r
    }

    /// Moves payloads to a channel's queue, and says whether one of them ends its exchange.
    fn enqueue_all(&mut self, channel: u32, held: VecDeque<Queued>) -> (r: bool)
        ensures
            r == (exists|i: int|
                0 <= i < queue_view(held).len() && completes(#[trigger] queue_view(held)[i].kind)),
            final(self)@ == (CoreView {
                queues: old(self)@.queues.insert(
                    channel,
                    entry(old(self)@.queues, channel) + queue_view(held),
                ),
                ..old(self)@
            }),
    {
        let ghost before = self@;
        let ghost all = queue_view(held);
        let mut held = held;
        let mut queue = match self.take_queue(channel) {
            Some(queue) => queue,
            None => VecDeque::new(),
        };
        let ghost had = queue_view(queue);
        assert(had =~= entry(before.queues, channel));
        let mut finished = false;
        let ghost mut moved: int = 0;
        assert(all.skip(0) =~= all);
        assert(had =~= had + all.take(0));
        while held.len() > 0
            invariant
                0 <= moved <= all.len(),
                queue_view(held) == all.skip(moved),
                queue_view(queue) == had + all.take(moved),
                finished == (exists|i: int| 0 <= i < moved && completes(#[trigger] all[i].kind)),
            decreases held@.len(),
        {
            let ghost rest = queue_view(held);
            let ghost now = queue_view(queue);
            assert(rest.len() == held@.len());
            assert(moved < all.len());
            let popped = held.pop_front();
            if let Some(queued) = popped {
                proof {
                    assert(queued@ == rest[0]);
                    assert(rest[0] == all[moved]);
                    assert(queue_view(held) =~= rest.drop_first());
                    assert(rest.drop_first() =~= all.skip(moved + 1));
                }
                if completes_reply(queued.kind) {
                    assert(completes(all[moved].kind));
                    finished = true;
                }
                queue.push_back(queued);
                proof {
                    assert(queue_view(queue) =~= now.push(all[moved]));
                    assert(queue_view(queue) =~= had + all.take(moved + 1));
                    moved = moved + 1;
                }
            }
        }
        assert(all.take(moved) =~= all);
        self.put_queue(channel, queue);
        assert(self@.queues =~= before.queues.insert(
            channel,
            entry(before.queues, channel) + all,
        ));
        finished
    }

    fn send_msg(&mut self, channel: u32, payload: Bytes) -> (r: Result<u32, Error>)
        ensures
            (final(self)@, r) == old(self)@.send_msg(channel, octets::octets(payload)),
    {
        let ghost before = self@;
        let mut state = match self.take_channel(channel) {
            Some(state) => state,
            None => return Err(Error::NoSuchChannel { channel }),
        };
        let allocated = state.allocate_msgno();
        self.put_channel(channel, state);
        assert(self@.channels =~= before.channels.insert(channel, state@));
        let msgno: u32 = allocated?;
        self.send(channel, FrameKind::Msg, msgno, None, payload)?;
        Ok(msgno)
    }

    fn require_ready(&self) -> (r: Result<(), Error>)
        ensures
            r == (if self@.state == State::Ready {
                Ok(())
            } else {
                Err(CoreView::not_ready())
            }),
    {
        if self.state == State::Ready {
            return Ok(());
        }
        Err(Error::ChannelNumber { reason: "greetings have not been exchanged yet" })
    }

    /// Sends a management request on channel 0 and remembers what it was asking for.
    fn request(&mut self, management: Management, pending: Pending) -> (r: Result<(), Error>)
        ensures
            (final(self)@, r) == old(self)@.request(management@, pending),
    {
        let msgno: u32 = self.zero.allocate_msgno()?;
        self.pending.insert(msgno, pending);
        self.write_zero(FrameKind::Msg, msgno, &management)
    }

    /// Sends a management reply on channel 0.
    fn reply(&mut self, kind: FrameKind, msgno: u32, management: &Management) -> (r: Result<
        (),
        Error,
    >)
        ensures
            (final(self)@, r) == old(self)@.reply(kind, msgno, management@),
    {
        self.zero.replied(msgno);
        self.write_zero(kind, msgno, management)
    }

    fn write_zero(&mut self, kind: FrameKind, msgno: u32, management: &Management) -> (r: Result<
        (),
        Error,
    >)
        ensures
            (final(self)@, r) == old(self)@.write_zero(kind, msgno, management@),
    {
        self.enqueue(
            GREETING_CHANNEL,
            Queued { kind, msgno, ansno: None, payload: management.to_payload() },
        );
        self.flush(GREETING_CHANNEL)
    }

    fn enqueue(&mut self, number: u32, queued: Queued)
        ensures
            final(self)@ == old(self)@.enqueue(number, queued@),
    {
        let ghost before = self@;
        let mut queue = match self.take_queue(number) {
            Some(queue) => queue,
            None => VecDeque::new(),
        };
        let ghost had = queue_view(queue);
        assert(had =~= entry(before.queues, number));
        queue.push_back(queued);
        assert(queue_view(queue) =~= had.push(queued@));
        self.put_queue(number, queue);
        assert(self@.queues =~= before.queues.insert(number, had.push(queued@)));
    }

    /// Writes as much of a channel's queue as its window allows.
    ///
    /// It takes what the application asked to send, cuts it to the peer's window, and holds
    /// the rest until a `SEQ` frame makes room.
    fn flush(&mut self, number: u32) -> (r: Result<(), Error>)
        ensures
            (final(self)@, r) == old(self)@.flush(number),
    {
        let ghost before = self@;
        let max: u32 = self.config.max_frame_size;
        let mut queue = match self.take_queue(number) {
            Some(queue) => queue,
            None => return Ok(()),
        };
        let ghost waiting = queue_view(queue);
        if number == GREETING_CHANNEL {
            let r = flush_channel(&mut self.zero, &mut queue, &mut self.outbound, max);
            self.put_queue(number, queue);
            assert(self@.queues =~= before.queues.insert(number, queue_view(queue)));
            r
        } else {
            let mut channel = match self.take_channel(number) {
                Some(channel) => channel,
                None => {
                    self.put_queue(number, queue);
                    assert(self@.queues =~= before.queues);
                    return Ok(());
                },
            };
            let r = flush_channel(&mut channel, &mut queue, &mut self.outbound, max);
            self.put_queue(number, queue);
            self.put_channel(number, channel);
            assert(self@.queues =~= before.queues.insert(number, queue_view(queue)));
            assert(self@.channels =~= before.channels.insert(number, channel@));
            r
        }
    }

    /// Charges received octets against the incoming window, emitting a `SEQ` once enough
    /// have accumulated.
    ///
    /// Acknowledging every frame would work but doubles the frame count on a busy channel,
    /// so the window is reopened once half of it has been consumed.
    fn acknowledge(&mut self, number: u32, octets: u32) -> (r: Result<(), Error>)
        ensures
            (final(self)@, r) == old(self)@.acknowledge(number, octets),
    {
        let ghost before = self@;
        if number != GREETING_CHANNEL && !self.channels.contains_key(&number) {
            return Ok(());
        }
        let pending: u32 = match self.unacked.get(&number) {
            Some(n) => n.saturating_add(octets),
            None => octets,
        };
        if number == GREETING_CHANNEL {
            let (r, left) = acknowledge_channel(&mut self.zero, &mut self.outbound, pending);
            self.unacked.insert(number, left);
            r
        } else {
            match self.take_channel(number) {
                Some(mut channel) => {
                    let (r, left) = acknowledge_channel(&mut channel, &mut self.outbound, pending);
                    self.put_channel(number, channel);
                    assert(self@.channels =~= before.channels.insert(number, channel@));
                    assert(channel@ == before.channels[number] ==> self@.channels
                        =~= before.channels);
                    self.unacked.insert(number, left);
                    r
                },
                None => Ok(()),
            }
        }
    }

    fn finish_close(&mut self, channel: u32)
        ensures
            final(self)@ == old(self)@.finish_close(channel),
    {
        let ghost before = self@;
        if channel == GREETING_CHANNEL {
            self.state = State::Closed;
            self.channels.clear();
            self.queues.clear();
            self.unacked.clear();
            self.reply_order.clear();
            self.held_replies.clear();
            proof {
                assert(self@.channels =~= Map::empty());
                assert(self@.queues =~= Map::empty());
                assert(self@.reply_order =~= Map::empty());
                assert(self@.held_replies =~= Map::empty());
            }
            self.push_event(Event::SessionClosed);
            return;
        }
        self.channels.remove(&channel);
        self.queues.remove(&channel);
        self.unacked.remove(&channel);
        self.reply_order.remove(&channel);
        self.held_replies.remove(&channel);
        proof {
            assert(self@.channels =~= before.channels.remove(channel));
            assert(self@.queues =~= before.queues.remove(channel));
            assert(self@.reply_order =~= before.reply_order.remove(channel));
            assert(self@.held_replies =~= before.held_replies.remove(channel));
        }
        self.push_event(Event::ChannelClosed { channel });
    }
}

/// What a session knows.
#[verifier::ext_equal]
pub struct SessionView {
    pub decoder: DecoderView,
    /// Octets received but not yet forming a complete frame.
    pub inbound: Seq<u8>,
    pub core: CoreView,
}

impl SessionView {
    /// A session as it starts.
    pub open spec fn fresh(config: ConfigView) -> SessionView {
        SessionView {
            decoder: DecoderView {
                max_frame_size: crate::frame::MAX_FRAME_SIZE,
                pending: None,
            },
            inbound: Seq::empty(),
            core: CoreView::fresh(config),
        }
    }

    /// Takes every whole frame off what has been received.
    pub open spec fn receive(self) -> Result<SessionView, Error>
        decreases self.inbound.len(),
    {
        match self.decoder.decode(self.inbound) {
            Err(e) => Err(e),
            Ok(d) => match d.frame {
                None => Ok(SessionView { decoder: d.decoder, inbound: d.rest, ..self }),
                Some(f) => match self.core.handle_frame(f) {
                    (_, Err(e)) => Err(e),
                    (core, Ok(_)) => {
                        let next = SessionView { decoder: d.decoder, inbound: d.rest, core };
                        if d.rest.len() < self.inbound.len() {
                            next.receive()
                        } else {
                            Ok(next)
                        }
                    },
                },
            },
        }
    }

    /// What the session has come to once it has taken every whole frame off what has been
    /// received, or the frames up to and including the first that is at fault.
    pub open spec fn reached(self) -> CoreView
        decreases self.inbound.len(),
    {
        match self.decoder.decode(self.inbound) {
            Err(_) => self.core,
            Ok(d) => match d.frame {
                None => self.core,
                Some(f) => match self.core.handle_frame(f) {
                    (core, Err(_)) => core,
                    (core, Ok(_)) => {
                        let next = SessionView { decoder: d.decoder, inbound: d.rest, core };
                        if d.rest.len() < self.inbound.len() {
                            next.reached()
                        } else {
                            core
                        }
                    },
                },
            },
        }
    }

    /// Takes octets received from the transport. An error is fatal: what is left of the octets
    /// after one, and the decoder, are of no further use.
    pub open spec fn handle_input(self, input: Seq<u8>) -> Result<SessionView, Error> {
        (SessionView { inbound: self.inbound + input, ..self }).receive()
    }
}

/// One BEEP session.
#[derive(Debug)]
pub struct Session {
    decoder: Decoder,
    inbound: BytesMut,
    core: Core,
}

impl View for Session {
    type V = SessionView;

    closed spec fn view(&self) -> SessionView {
        SessionView {
            decoder: self.decoder@,
            inbound: octets::buffered(self.inbound),
            core: self.core@,
        }
    }
}

impl Session {
    /// Starts a session, queueing this end's greeting for transmission.
    #[must_use]
    pub fn new(config: Config) -> (r: Session)
        ensures
            r@ == SessionView::fresh(config@),
    {
        let zero = Channel::with_window_size(GREETING_CHANNEL, "", config.window_size);
        let payload = config.greeting.to_payload();
        let mut core = Core {
            zero,
            next_channel: config.role.first_channel(),
            config,
            state: State::AwaitingGreeting,
            peer_greeting: None,
            channels: BTreeMap::new(),
            queues: BTreeMap::new(),
            pending: BTreeMap::new(),
            reply_order: BTreeMap::new(),
            held_replies: BTreeMap::new(),
            half_open: BTreeMap::new(),
            unacked: BTreeMap::new(),
            outbound: BytesMut::new(),
            events: VecDeque::new(),
        };
        proof {
            reveal_strlit("");
            assert(""@ =~= Seq::<char>::empty());
            assert(core@ =~= CoreView::blank(config@));
        }
        // The greeting is an RPY on channel 0 with message and sequence number zero. It goes
        // through the same queue as everything else, so a greeting larger than the initial
        // window is paced rather than truncated.
        core.enqueue(
            GREETING_CHANNEL,
            Queued { kind: FrameKind::Rpy, msgno: 0, ansno: None, payload },
        );
        let flushed = core.flush(GREETING_CHANNEL);
        proof {
            law_fresh_session_greets(config@);
            assert(flushed is Ok);
        }
        Session { decoder: Decoder::new(), inbound: BytesMut::new(), core }
    }

    /// How far the session has got.
    #[must_use]
    pub fn state(&self) -> (r: State)
        ensures
            r == self@.core.state,
    {
        self.core.state
    }

    /// Which end this is.
    #[must_use]
    pub fn role(&self) -> (r: Role)
        ensures
            r == self@.core.config.role,
    {
        self.core.config.role
    }

    /// The greeting the peer sent, once it has arrived.
    #[must_use]
    pub fn peer_greeting(&self) -> (r: Option<&Greeting>)
        ensures
            self@.core.peer_greeting == (match r {
                Some(g) => Some(g@),
                None => None,
            }),
    {
        match &self.core.peer_greeting {
            Some(g) => Some(g),
            None => None,
        }
    }

    /// The open channels, by number. Channel 0 is not included.
    #[must_use]
    pub fn channel(&self, number: u32) -> (r: Option<&Channel>)
        ensures
            match r {
                Some(c) => self@.core.channels.contains_key(number) && c@
                    == self@.core.channels[number],
                None => !self@.core.channels.contains_key(number),
            },
    {
        self.core.channels.get(&number)
    }

    /// Octets to write to the transport, or `None` when there is nothing pending.
    #[must_use]
    pub fn poll_transmit(&mut self) -> (r: Option<Bytes>)
        ensures
            match r {
                Some(b) => {
                    &&& octets::octets(b) == old(self)@.core.outbound
                    &&& old(self)@.core.outbound.len() > 0
                    &&& final(self)@ == (SessionView {
                        core: CoreView { outbound: Seq::empty(), ..old(self)@.core },
                        ..old(self)@
                    })
                },
                None => old(self)@.core.outbound.len() == 0 && final(self)@ == old(self)@,
            },
    {
        if self.core.outbound.len() == 0 {
            return None;
        }
        Some(self.core.outbound.split().freeze())
    }

    /// The next thing that happened, or `None` when nothing is queued.
    #[must_use]
    pub fn poll_event(&mut self) -> (r: Option<Event>)
        ensures
            match r {
                Some(e) => {
                    &&& old(self)@.core.events.len() > 0
                    &&& e@ == old(self)@.core.events[0]
                    &&& final(self)@ == (SessionView {
                        core: CoreView {
                            events: old(self)@.core.events.drop_first(),
                            ..old(self)@.core
                        },
                        ..old(self)@
                    })
                },
                None => old(self)@.core.events.len() == 0 && final(self)@ == old(self)@,
            },
    {
        let ghost before = self@;
        let r = self.core.events.pop_front();
        proof {
            if r is Some {
                assert(self@.core.events =~= before.core.events.drop_first());
            } else {
                assert(self@.core.events =~= before.core.events);
            }
        }
        r
    }

    /// Feeds octets received from the transport.
    ///
    /// # Errors
    ///
    /// Any [`Error`] here is fatal for the session, exactly as in [`Decoder::decode`]. What the
    /// frames before it brought about can still be polled.
    pub fn handle_input(&mut self, input: &[u8]) -> (r: Result<(), Error>)
        ensures
            match r {
                Ok(_) => old(self)@.handle_input(input@) == Ok::<SessionView, Error>(final(self)@),
                Err(e) => old(self)@.handle_input(input@) == Err::<SessionView, Error>(e),
            },
            final(self)@.core == (SessionView {
                inbound: old(self)@.inbound + input@,
                ..old(self)@
            }).reached(),
    {
        // Octets that do not yet complete a frame are kept for the next call: a transport
        // hands over whatever happened to arrive, and a frame straddling two reads must not
        // lose its first half.
        self.inbound.extend_from_slice(input);
        let ghost start = self@;
        loop
            invariant
                start.receive() == self@.receive(),
                start.reached() == self@.reached(),
                start == (SessionView { inbound: old(self)@.inbound + input@, ..old(self)@ }),
            decreases self@.inbound.len(),
        {
            proof {
                codec::lemma_decode_consumes(self@.decoder, self@.inbound);
            }
            match self.decoder.decode(&mut self.inbound)? {
                Some(frame) => {
                    self.core.handle_frame(&frame)?;
                },
                None => {
                    return Ok(());
                },
            }
        }
    }

    /// Octets received but not yet forming a complete frame.
    #[must_use]
    pub fn buffered_input(&self) -> (r: usize)
        ensures
            r == self@.inbound.len(),
    {
        self.inbound.len()
    }

    // ---- requests ------------------------------------------------------------------

    /// Asks the peer for a new channel, returning the number allocated for it.
    ///
    /// The channel does not exist until the peer accepts; [`Event::ChannelOpened`] or
    /// [`Event::StartRefused`] reports which way it went.
    ///
    /// # Errors
    ///
    /// Returns [`Error::ChannelNumber`] before the greetings have been exchanged, since
    /// nothing may be started until both peers have announced themselves.
    pub fn start_channel(&mut self, profile: Profile) -> (r: Result<u32, Error>)
        ensures
            (final(self)@.core, r) == old(self)@.core.start_channel(profile@),
            final(self)@ == (SessionView { core: final(self)@.core, ..old(self)@ }),
    {
        self.core.start_channel(profile)
    }

    /// Accepts a channel the peer asked for.
    ///
    /// # Errors
    ///
    /// Returns [`Error::ChannelNumber`] when the requested number is not one the peer may
    /// allocate, or is already open.
    pub fn accept_start(&mut self, channel: u32, msgno: u32, profile: Profile) -> (r: Result<
        (),
        Error,
    >)
        ensures
            (final(self)@.core, r) == old(self)@.core.accept_start(channel, msgno, profile@),
            final(self)@ == (SessionView { core: final(self)@.core, ..old(self)@ }),
    {
        self.core.accept_start(channel, msgno, profile)
    }

    /// Refuses a channel the peer asked for.
    ///
    /// # Errors
    ///
    /// Propagates a framing failure while rendering the reply.
    pub fn refuse_start(&mut self, msgno: u32, error: ErrorReply) -> (r: Result<(), Error>)
        ensures
            (final(self)@.core, r) == old(self)@.core.reply(
                FrameKind::Error,
                msgno,
                ManagementView::Error(error@),
            ),
            final(self)@ == (SessionView { core: final(self)@.core, ..old(self)@ }),
    {
        self.core.reply(FrameKind::Error, msgno, &Management::Error(error))
    }

    /// Asks the peer to close a channel, or the whole session when `channel` is zero.
    ///
    /// # Errors
    ///
    /// Returns [`Error::NoSuchChannel`] for a channel that is not open.
    pub fn close_channel(&mut self, channel: u32) -> (r: Result<(), Error>)
        ensures
            (final(self)@.core, r) == old(self)@.core.close_channel(channel),
            final(self)@ == (SessionView { core: final(self)@.core, ..old(self)@ }),
    {
        self.core.close_channel(channel)
    }

    /// Accepts a close the peer asked for.
    ///
    /// # Errors
    ///
    /// Propagates a framing failure while rendering the reply.
    pub fn accept_close(&mut self, channel: u32, msgno: u32) -> (r: Result<(), Error>)
        ensures
            (final(self)@.core, r) == old(self)@.core.accept_close(channel, msgno),
            final(self)@ == (SessionView { core: final(self)@.core, ..old(self)@ }),
    {
        self.core.accept_close(channel, msgno)
    }

    /// Refuses a close the peer asked for.
    ///
    /// # Errors
    ///
    /// Propagates a framing failure while rendering the reply.
    pub fn refuse_close(&mut self, msgno: u32, error: ErrorReply) -> (r: Result<(), Error>)
        ensures
            (final(self)@.core, r) == old(self)@.core.reply(
                FrameKind::Error,
                msgno,
                ManagementView::Error(error@),
            ),
            final(self)@ == (SessionView { core: final(self)@.core, ..old(self)@ }),
    {
        self.core.reply(FrameKind::Error, msgno, &Management::Error(error))
    }

    /// Queues a payload for a channel, fragmenting and pacing it against the peer's window.
    ///
    /// # Errors
    ///
    /// Returns [`Error::NoSuchChannel`] for a channel that is not open, and
    /// [`Error::MissingField`] when an `ANS` is sent without an answer number, which changes
    /// nothing, or anything but an `ANS` with one.
    pub fn send(
        &mut self,
        channel: u32,
        kind: FrameKind,
        msgno: u32,
        ansno: Option<u32>,
        payload: Bytes,
    ) -> (r: Result<(), Error>)
        ensures
            (final(self)@.core, r) == old(self)@.core.send(
                channel,
                kind,
                msgno,
                ansno,
                octets::octets(payload),
            ),
            final(self)@ == (SessionView { core: final(self)@.core, ..old(self)@ }),
            old(self)@.core.channels.contains_key(channel) && kind == FrameKind::Ans && ansno is None
                ==> r == Err::<(), Error>(Error::MissingField { field: "ansno" }) && final(self)@
                == old(self)@,
    {
        self.core.send(channel, kind, msgno, ansno, payload)
    }

    /// Changes the window advertised for incoming traffic on a channel.
    ///
    /// # Errors
    ///
    /// Returns [`Error::NoSuchChannel`] when the channel is not open.
    pub fn set_window_size(&mut self, channel: u32, size: u32) -> (r: Result<(), Error>)
        ensures
            if old(self)@.core.channels.contains_key(channel) {
                let c = old(self)@.core.channels[channel];
                &&& r is Ok
                &&& final(self)@ == (SessionView {
                    core: old(self)@.core.with_open_channel(
                        channel,
                        ChannelView {
                            recv_window: window::WindowView { base: c.recv_window.base, size },
                            ..c
                        },
                    ),
                    ..old(self)@
                })
            } else {
                &&& r == Err::<(), Error>(Error::NoSuchChannel { channel })
                &&& final(self)@ == old(self)@
            },
    {
        let ghost before = self@;
        match self.core.take_channel(channel) {
            Some(mut c) => {
                c.set_recv_window_size(size);
                self.core.put_channel(channel, c);
                assert(self@.core.channels =~= before.core.channels.insert(channel, c@));
                Ok(())
            },
            None => Err(Error::NoSuchChannel { channel }),
        }
    }

    /// Sends a `MSG` on a channel, allocating a message number for it.
    ///
    /// # Errors
    ///
    /// As [`Session::send`], plus [`Error::MsgNoExhausted`] when no message number is free.
    pub fn send_msg(&mut self, channel: u32, payload: Bytes) -> (r: Result<u32, Error>)
        ensures
            (final(self)@.core, r) == old(self)@.core.send_msg(channel, octets::octets(payload)),
            final(self)@ == (SessionView { core: final(self)@.core, ..old(self)@ }),
    {
        self.core.send_msg(channel, payload)
    }
}

/// Writes as much of a queue as the channel's window allows.
fn flush_channel(
    channel: &mut Channel,
    queue: &mut VecDeque<Queued>,
    outbound: &mut BytesMut,
    max: u32,
) -> (r: Result<(), Error>)
    ensures
        ({
            let f = flushed(old(channel)@, queue_view(*old(queue)), max);
            &&& final(channel)@ == f.channel
            &&& queue_view(*final(queue)) == f.queue
            &&& octets::buffered(*final(outbound)) == octets::buffered(*old(outbound)) + wires(
                f.frames,
            )
            &&& r == f.result
        }),
{
    let ghost whole = flushed(channel@, queue_view(*queue), max);
    let ghost start = octets::buffered(*outbound);
    let ghost mut written: Seq<DataView> = Seq::empty();
    assert(start =~= start + wires(written));
    assert(whole.frames =~= written + whole.frames);
    loop
        invariant
            whole == flushed(old(channel)@, queue_view(*old(queue)), max),
            start == octets::buffered(*old(outbound)),
            octets::buffered(*outbound) == start + wires(written),
            ({
                let rest = flushed(channel@, queue_view(*queue), max);
                &&& whole.channel == rest.channel
                &&& whole.queue == rest.queue
                &&& whole.result == rest.result
                &&& whole.frames == written + rest.frames
            }),
        decreases queue@.len(),
    {
        let ghost waiting = queue_view(*queue);
        assert(written =~= written + Seq::<DataView>::empty());
        let front = match queue.pop_front() {
            Some(front) => front,
            None => {
                return Ok(());
            },
        };
        assert(front@ == waiting[0]);
        if channel.is_stalled() && front.payload.len() > 0 {
            queue.push_front(front);
            assert(queue_view(*queue) =~= waiting);
            return Ok(());
        }
        let emitted = match channel.emit(
            front.kind,
            front.msgno,
            front.ansno,
            front.payload.clone(),
            max,
        ) {
            Ok(emitted) => emitted,
            Err(e) => {
                queue.push_front(front);
                assert(queue_view(*queue) =~= waiting);
                return Err(e);
            },
        };
        encode_all(&emitted.frames, outbound);
        proof {
            let out = emitted@.frames;
            let tail = flushed(channel@, waiting.drop_first(), max).frames;
            lemma_wires_concat(written, out);
            assert(start + wires(written) + wires(out) =~= start + wires(written + out));
            assert(written + (out + tail) =~= written + out + tail);
            written = written + out;
        }
        if emitted.is_complete() {
            assert(queue_view(*queue) =~= waiting.drop_first());
        } else {
            let left = Queued {
                kind: front.kind,
                msgno: front.msgno,
                ansno: front.ansno,
                payload: emitted.remaining,
            };
            queue.push_front(left);
            assert(queue_view(*queue) =~= waiting.update(0, left@));
            return Ok(());
        }
    }
}

/// Appends the wire representation of a run of frames.
fn encode_all(frames: &Vec<DataFrame>, outbound: &mut BytesMut)
    ensures
        octets::buffered(*final(outbound)) == octets::buffered(*old(outbound)) + wires(
            frames@.map_values(|f: DataFrame| f@),
        ),
{
    let ghost start = octets::buffered(*outbound);
    let ghost all = frames@.map_values(|f: DataFrame| f@);
    let mut i: usize = 0;
    assert(all.take(0) =~= Seq::empty());
    assert(start =~= start + wires(all.take(0)));
    while i < frames.len()
        invariant
            i <= frames@.len(),
            all == frames@.map_values(|f: DataFrame| f@),
            octets::buffered(*outbound) == start + wires(all.take(i as int)),
        decreases frames@.len() - i,
    {
        let ghost before = octets::buffered(*outbound);
        frames[i].encode(outbound);
        proof {
            assert(all.take(i + 1).drop_last() =~= all.take(i as int));
            assert(all.take(i + 1).last() == all[i as int]);
            assert(octets::buffered(*outbound) =~= start + wires(all.take(i + 1)));
        }
        i += 1;
    }
    assert(all.take(i as int) =~= all);
}

/// Emits a `SEQ` for `pending` octets once they make up half of a channel's window. Gives what
/// is then left to acknowledge.
fn acknowledge_channel(channel: &mut Channel, outbound: &mut BytesMut, pending: u32) -> (r: (
    Result<(), Error>,
    u32,
))
    ensures
        ({
            let c = old(channel)@;
            let threshold: u32 = if c.recv_window.size / 2 > 1 {
                c.recv_window.size / 2
            } else {
                1
            };
            if pending < threshold {
                &&& final(channel)@ == c
                &&& octets::buffered(*final(outbound)) == octets::buffered(*old(outbound))
                &&& r == (Ok::<(), Error>(()), pending)
            } else {
                let after = c.consume(pending);
                &&& final(channel)@ == after
                &&& match after.recv_window.seq_frame(after.number).checked() {
                    Err(e) => {
                        &&& octets::buffered(*final(outbound)) == octets::buffered(*old(outbound))
                        &&& r == (Err::<(), Error>(e), pending)
                    },
                    Ok(seq) => {
                        &&& octets::buffered(*final(outbound)) == octets::buffered(*old(outbound))
                            + seq.wire()
                        &&& r == (Ok::<(), Error>(()), 0u32)
                    },
                }
            }
        }),
{
    let half: u32 = channel.recv_window().size() / 2;
    let threshold: u32 = if half > 1 {
        half
    } else {
        1
    };
    if pending < threshold {
        return (Ok(()), pending);
    }
    match channel.consume(pending) {
        Ok(seq) => {
            seq.encode(outbound);
            (Ok(()), 0)
        },
        Err(e) => (Err(e), pending),
    }
}

/// Whether a frame kind answers a message rather than starting an exchange.
fn is_reply(kind: FrameKind) -> (r: bool)
    ensures
        r == answers(kind),
{
    match kind {
        FrameKind::Msg => false,
        _ => true,
    }
}

/// Whether a frame kind ends the exchange it belongs to.
///
/// `ANS` does not: a one-to-many reply runs until its `NUL`.
fn completes_reply(kind: FrameKind) -> (r: bool)
    ensures
        r == completes(kind),
{
    match kind {
        FrameKind::Rpy | FrameKind::Error | FrameKind::Nul => true,
        _ => false,
    }
}

/// Convenience for the common refusal: the profile is not supported.
#[must_use]
pub fn profile_not_supported() -> (r: ErrorReply)
    ensures
        r@ == (ErrorReplyView {
            code: code::REQUESTED_ACTION_NOT_TAKEN,
            lang: None,
            text: Some("profile not supported"@),
        }),
{
    ErrorReply::new(code::REQUESTED_ACTION_NOT_TAKEN).with_text("profile not supported", None)
}

// ---- laws ------------------------------------------------------------------------

/// A session starts by writing its greeting: it is all on its way where the window takes it, and
/// otherwise what is left of it waits. Nothing can go wrong with it.
pub proof fn law_fresh_session_greets(config: ConfigView)
    ensures
        ({
            let greeting = MessageView {
                kind: FrameKind::Rpy,
                msgno: 0,
                ansno: None,
                payload: config.greeting.payload(),
            };
            CoreView::blank(config).enqueue(GREETING_CHANNEL, greeting).flush(
                GREETING_CHANNEL,
            ).1 is Ok
        }),
        CoreView::fresh(config).state == State::AwaitingGreeting,
        CoreView::fresh(config).events.len() == 0,
{
    let greeting = MessageView {
        kind: FrameKind::Rpy,
        msgno: 0,
        ansno: None,
        payload: config.greeting.payload(),
    };
    let blank = CoreView::blank(config);
    let queue = Seq::<MessageView>::empty().push(greeting);
    assert(entry(blank.queues, GREETING_CHANNEL) =~= Seq::empty());
    reveal_with_fuel(flushed, 2);
    reveal(ChannelView::emit);
    assert(blank.enqueue(GREETING_CHANNEL, greeting).queues[GREETING_CHANNEL] =~= queue);
    assert(queue.drop_first() =~= Seq::empty());
}

/// How the transport cuts up the octets does not matter: a session that is fed them in two parts
/// ends up where it would have been had they come at once, or fails with the same error. By
/// repeating the argument, the same goes for any number of parts.
pub proof fn law_input_may_be_cut_anywhere(s: SessionView, a: Seq<u8>, b: Seq<u8>)
    ensures
        s.handle_input(a + b) == (match s.handle_input(a) {
            Err(e) => Err::<SessionView, Error>(e),
            Ok(t) => t.handle_input(b),
        }),
{
    assert(s.inbound + (a + b) =~= s.inbound + a + b);
    lemma_receive_cut(SessionView { inbound: s.inbound + a, ..s }, b);
}

proof fn lemma_receive_cut(s: SessionView, b: Seq<u8>)
    ensures
        (SessionView { inbound: s.inbound + b, ..s }).receive() == (match s.receive() {
            Err(e) => Err::<SessionView, Error>(e),
            Ok(t) => t.handle_input(b),
        }),
    decreases s.inbound.len(),
{
    let whole = SessionView { inbound: s.inbound + b, ..s };
    codec::law_decode_fragmented(s.decoder, s.inbound, b);
    codec::lemma_decode_consumes(s.decoder, s.inbound);
    codec::lemma_decode_consumes(s.decoder, s.inbound + b);
    match s.decoder.decode(s.inbound) {
        Err(_) => {},
        Ok(d) => match d.frame {
            None => {
                // Nothing was handled yet: both go on from the same octets.
                let t = SessionView { decoder: d.decoder, inbound: d.rest, ..s };
                let next = SessionView { inbound: d.rest + b, ..t };
                codec::lemma_decode_consumes(d.decoder, d.rest + b);
                assert(whole.decoder.decode(whole.inbound) == next.decoder.decode(next.inbound));
                assert(whole.receive() == next.receive());
            },
            Some(f) => match s.core.handle_frame(f) {
                (_, Err(_)) => {},
                (core, Ok(_)) => {
                    let t = SessionView { decoder: d.decoder, inbound: d.rest, core };
                    lemma_receive_cut(t, b);
                },
            },
        },
    }
}

/// Nothing is ever asked of the peer twice under one number: the channel numbers a session asks
/// for are the ones its role owns, each two further than the last.
pub proof fn law_channel_numbers_keep_to_the_role(s: CoreView, profile: ProfileView)
    requires
        s.next_channel % 2 == s.config.role.first() % 2,
    ensures
        match s.start_channel(profile) {
            (t, Ok(number)) => {
                &&& number == s.next_channel
                &&& number != 0 ==> s.config.role.has(number)
                &&& t.next_channel == window::advanced(number, 2)
                &&& t.next_channel % 2 == t.config.role.first() % 2
            },
            (_, Err(_)) => true,
        },
{
}

/// The two roles never own the same channel number, and neither owns channel 0.
pub proof fn law_roles_share_no_channel(channel: u32)
    ensures
        !(Role::Initiator.has(channel) && Role::Listener.has(channel)),
        channel != 0 ==> Role::Initiator.has(channel) || Role::Listener.has(channel),
        !Role::Initiator.has(0) && !Role::Listener.has(0),
{
}

/// A peer cannot be given a number of this end's own, nor channel 0, nor one that is open; any
/// other number it asks for is opened.
pub proof fn law_accepted_channels_are_the_peers(
    s: CoreView,
    channel: u32,
    msgno: u32,
    profile: ProfileView,
)
    ensures
        s.accept_start(channel, msgno, profile).1 is Ok ==> !s.config.role.has(channel) && channel
            != 0 && !s.channels.contains_key(channel),
        channel != 0 && !s.config.role.has(channel) && !s.channels.contains_key(channel)
            ==> s.accept_start(channel, msgno, profile).0.channels.contains_key(channel)
            && s.accept_start(channel, msgno, profile).0.channels[channel] == ChannelView::fresh(
            channel,
            profile.uri,
            s.config.window_size,
        ),
{
}

/// Before the greetings have been exchanged nothing can be asked for: the request fails and
/// changes nothing. A closed session is no different.
pub proof fn law_nothing_starts_before_the_greetings(
    s: CoreView,
    profile: ProfileView,
    channel: u32,
)
    requires
        s.state != State::Ready,
    ensures
        s.start_channel(profile) == (s, Err::<u32, Error>(CoreView::not_ready())),
        s.close_channel(channel) == (s, Err::<(), Error>(CoreView::not_ready())),
{
}

/// A reply whose turn has not come is not written: it leaves the queues and the octets to write
/// as they are, whatever it is, and is put behind what is already held for its message.
pub proof fn law_early_replies_are_held(
    s: CoreView,
    channel: u32,
    kind: FrameKind,
    msgno: u32,
    ansno: Option<u32>,
    payload: Seq<u8>,
)
    requires
        s.channels.contains_key(channel),
        kind != FrameKind::Msg,
        kind == FrameKind::Ans ==> ansno is Some,
        entry(s.reply_order, channel).len() > 0,
        s.reply_order[channel][0] != msgno,
    ensures
        ({
            let (t, r) = s.send(channel, kind, msgno, ansno, payload);
            &&& r is Ok
            &&& t.outbound == s.outbound
            &&& t.queues == s.queues
            &&& t.reply_order == s.reply_order
            &&& t.held_replies[channel][msgno].last().payload == payload
            &&& t.held_replies[channel][msgno].drop_last() == (if s.held_replies.contains_key(
                channel,
            ) {
                entry(s.held_replies[channel], msgno)
            } else {
                Seq::empty()
            })
        }),
{
    let n = s.told(channel, kind, msgno);
    let m = MessageView { kind, msgno, ansno, payload };
    let held = if s.held_replies.contains_key(channel) {
        s.held_replies[channel]
    } else {
        Map::empty()
    };
    assert(n.hold(channel, m).held_replies[channel][msgno] == entry(held, msgno).push(m));
    assert(entry(held, msgno).push(m).drop_last() =~= entry(held, msgno));
}

/// The payloads of a queue, joined.
pub open spec fn queued_octets(queue: Seq<MessageView>) -> Seq<u8>
    decreases queue.len(),
{
    if queue.len() == 0 {
        Seq::empty()
    } else {
        queue[0].payload + queued_octets(queue.drop_first())
    }
}

proof fn lemma_joined_concat(a: Seq<DataView>, b: Seq<DataView>)
    ensures
        channel::joined(a + b) == channel::joined(a) + channel::joined(b),
    decreases a.len(),
{
    if a.len() == 0 {
        assert(a + b =~= b);
        assert(channel::joined(a) + channel::joined(b) =~= channel::joined(b));
    } else {
        lemma_joined_concat(a.drop_first(), b);
        assert((a + b).drop_first() =~= a.drop_first() + b);
        assert(a[0].payload + (channel::joined(a.drop_first()) + channel::joined(b))
            =~= a[0].payload + channel::joined(a.drop_first()) + channel::joined(b));
    }
}

/// Pacing loses nothing and reorders nothing: the octets that leave and those that stay queued
/// are, in that order, the octets that were queued, and no more leave than the peer's window
/// takes.
pub proof fn law_pacing_keeps_every_octet_in_order(
    channel: ChannelView,
    queue: Seq<MessageView>,
    max: u32,
)
    ensures
        ({
            let f = flushed(channel, queue, max);
            &&& channel::joined(f.frames) + queued_octets(f.queue) == queued_octets(queue)
            &&& channel::joined(f.frames).len() + f.channel.writable() == channel.writable()
            &&& f.channel == (ChannelView {
                next_seqno: window::advanced(
                    channel.next_seqno,
                    channel::joined(f.frames).len() as int,
                ),
                ..channel
            })
        }),
    decreases queue.len(),
{
    let f = flushed(channel, queue, max);
    let nothing = Seq::<DataView>::empty();
    assert(channel::joined(nothing) =~= Seq::<u8>::empty());
    assert(channel::joined(nothing) + queued_octets(queue) =~= queued_octets(queue));
    assert(window::advanced(channel.next_seqno, 0) == channel.next_seqno);
    if queue.len() > 0 && !(channel.writable() == 0 && queue[0].payload.len() > 0) {
        let front = queue[0];
        channel::law_emit_fragments(
            channel,
            front.kind,
            front.msgno,
            front.ansno,
            front.payload,
            max,
        );
        if let Ok((after, emitted)) = channel.emit(
            front.kind,
            front.msgno,
            front.ansno,
            front.payload,
            max,
        ) {
            let sent = channel::joined(emitted.frames);
            if emitted.remaining.len() == 0 {
                let rest = flushed(after, queue.drop_first(), max);
                law_pacing_keeps_every_octet_in_order(after, queue.drop_first(), max);
                lemma_joined_concat(emitted.frames, rest.frames);
                assert(sent + emitted.remaining =~= sent);
                assert(sent + channel::joined(rest.frames) + queued_octets(rest.queue) =~= sent + (
                channel::joined(rest.frames) + queued_octets(rest.queue)));
                window::law_advancing_is_additive(
                    channel.next_seqno,
                    sent.len() as int,
                    channel::joined(rest.frames).len() as int,
                );
            } else {
                assert(f.queue.drop_first() =~= queue.drop_first());
                assert(sent + (emitted.remaining + queued_octets(queue.drop_first())) =~= sent
                    + emitted.remaining + queued_octets(queue.drop_first()));
            }
        }
    }
}

/// Writing what has already been written as far as it goes writes nothing more.
proof fn lemma_flushed_twice(channel: ChannelView, queue: Seq<MessageView>, max: u32)
    requires
        flushed(channel, queue, max).result is Ok,
    ensures
        ({
            let f = flushed(channel, queue, max);
            f.queue.len() == 0 || (f.channel.writable() == 0 && f.queue[0].payload.len() > 0)
        }),
    decreases queue.len(),
{
    if queue.len() > 0 && !(channel.writable() == 0 && queue[0].payload.len() > 0) {
        let front = queue[0];
        channel::law_emit_fragments(
            channel,
            front.kind,
            front.msgno,
            front.ansno,
            front.payload,
            max,
        );
        if let Ok((after, emitted)) = channel.emit(
            front.kind,
            front.msgno,
            front.ansno,
            front.payload,
            max,
        ) {
            if emitted.remaining.len() == 0 {
                lemma_flushed_twice(after, queue.drop_first(), max);
            }
        }
    }
}

/// Writing one queue and then what is added to it is writing all of it.
proof fn lemma_flushed_append(
    channel: ChannelView,
    queue: Seq<MessageView>,
    more: Seq<MessageView>,
    max: u32,
)
    requires
        flushed(channel, queue, max).result is Ok,
    ensures
        ({
            let first = flushed(channel, queue, max);
            let second = flushed(first.channel, first.queue + more, max);
            flushed(channel, queue + more, max) == (Flushed {
                frames: first.frames + second.frames,
                ..second
            })
        }),
    decreases queue.len(),
{
    let first = flushed(channel, queue, max);
    let second = flushed(first.channel, first.queue + more, max);
    let whole = flushed(channel, queue + more, max);
    if queue.len() == 0 || (channel.writable() == 0 && queue[0].payload.len() > 0) {
        assert(first.frames + second.frames =~= second.frames);
    } else {
        let front = queue[0];
        assert((queue + more)[0] == front);
        assert((queue + more).drop_first() =~= queue.drop_first() + more);
        channel::law_emit_fragments(
            channel,
            front.kind,
            front.msgno,
            front.ansno,
            front.payload,
            max,
        );
        if let Ok((after, emitted)) = channel.emit(
            front.kind,
            front.msgno,
            front.ansno,
            front.payload,
            max,
        ) {
            if emitted.remaining.len() == 0 {
                lemma_flushed_append(after, queue.drop_first(), more, max);
                let rest = flushed(after, queue.drop_first(), max);
                assert(emitted.frames + (rest.frames + second.frames) =~= emitted.frames
                    + rest.frames + second.frames);
            } else {
                let left = MessageView { payload: emitted.remaining, ..front };
                assert((queue + more).update(0, left) =~= queue.update(0, left) + more);
                assert(first.queue + more =~= queue.update(0, left) + more);
                assert(after.writable() == 0);
                assert(emitted.frames + second.frames =~= emitted.frames);
            }
        }
    }
}

/// The held replies whose turn has come: those of the message that has waited longest and, as
/// long as each is complete, those of the messages that arrived after it, one after the other.
pub open spec fn in_turn(order: Seq<u32>, held: Map<u32, Seq<MessageView>>) -> Seq<MessageView>
    decreases order.len(),
{
    if order.len() == 0 || !held.contains_key(order[0]) {
        Seq::empty()
    } else {
        let replies = held[order[0]];
        if exists|i: int| 0 <= i < replies.len() && completes(#[trigger] replies[i].kind) {
            replies + in_turn(order.drop_first(), held.remove(order[0]))
        } else {
            replies
        }
    }
}

/// Replies leave in the order in which the messages arrived: releasing what is held writes,
/// behind what already waits on the channel, exactly the replies whose turn has come, ordered by
/// the arrival of the messages they answer.
pub proof fn law_replies_leave_in_arrival_order(s: CoreView, channel: u32)
    requires
        channel != GREETING_CHANNEL,
        s.channels.contains_key(channel),
        s.ready(channel) is Some,
        s.release(channel).1 is Ok,
    ensures
        ({
            let t = s.release(channel).0;
            let f = flushed(
                s.channels[channel],
                entry(s.queues, channel) + in_turn(
                    s.reply_order[channel],
                    s.held_replies[channel],
                ),
                s.config.max_frame_size,
            );
            &&& t.outbound == s.outbound + wires(f.frames)
            &&& t.queues.contains_key(channel)
            &&& t.queues[channel] == f.queue
            &&& t.channels.contains_key(channel)
            &&& t.channels[channel] == f.channel
        }),
    decreases entry(s.reply_order, channel).len(),
{
    let max = s.config.max_frame_size;
    let order = s.reply_order[channel];
    let held = s.held_replies[channel];
    let replies = held[order[0]];
    let queue = entry(s.queues, channel) + replies;
    let (t, r) = s.release_ready(channel);
    let f = flushed(s.channels[channel], queue, max);
    assert(t.queues[channel] == f.queue);
    assert(t.channels[channel] == f.channel);
    assert(t.outbound == s.outbound + wires(f.frames));
    if exists|i: int| 0 <= i < replies.len() && completes(#[trigger] replies[i].kind) {
        let u = t.pop_order(channel);
        let rest = in_turn(order.drop_first(), held.remove(order[0]));
        let g = flushed(f.channel, f.queue + rest, max);
        assert(entry(u.reply_order, channel) =~= order.drop_first());
        assert(u.held_replies[channel] =~= held.remove(order[0]));
        lemma_flushed_append(s.channels[channel], queue, rest, max);
        lemma_wires_concat(f.frames, g.frames);
        assert(s.outbound + wires(f.frames) + wires(g.frames) =~= s.outbound + (wires(f.frames)
            + wires(g.frames)));
        assert(queue + rest =~= entry(s.queues, channel) + (replies + rest));
        if u.ready(channel) is Some {
            law_replies_leave_in_arrival_order(u, channel);
        } else {
            // Nothing more is ready, and what waits has gone as far as it goes.
            assert(rest =~= Seq::empty());
            assert(f.queue + rest =~= f.queue);
            lemma_flushed_twice(s.channels[channel], queue, max);
            assert(wires(g.frames) =~= Seq::<u8>::empty());
            assert(s.outbound + wires(f.frames) =~= s.outbound + wires(f.frames) + wires(
                g.frames,
            ));
        }
    }
}

/// What a session makes of a run of frames.
pub open spec fn handle_frames(core: CoreView, frames: Seq<FrameView>) -> Result<CoreView, Error>
    decreases frames.len(),
{
    if frames.len() == 0 {
        Ok(core)
    } else {
        match core.handle_frame(frames[0]) {
            (next, Ok(_)) => handle_frames(next, frames.drop_first()),
            (_, Err(e)) => Err(e),
        }
    }
}

/// The octets of a run of frames of either sort.
pub open spec fn frame_wires(frames: Seq<FrameView>) -> Seq<u8>
    decreases frames.len(),
{
    if frames.len() == 0 {
        Seq::empty()
    } else {
        frames[0].wire() + frame_wires(frames.drop_first())
    }
}

/// A session that is between frames takes exactly the frames that the peer encoded, in order,
/// and is between frames again afterwards.
pub proof fn law_encoded_frames_arrive(s: SessionView, frames: Seq<FrameView>)
    requires
        s.inbound.len() == 0,
        s.decoder.pending is None,
        s.decoder.max_frame_size == crate::frame::MAX_FRAME_SIZE,
        forall|i: int| 0 <= i < frames.len() ==> (#[trigger] frames[i]).valid(),
    ensures
        s.handle_input(frame_wires(frames)) == (match handle_frames(s.core, frames) {
            Ok(core) => Ok::<SessionView, Error>(SessionView { core, ..s }),
            Err(e) => Err::<SessionView, Error>(e),
        }),
    decreases frames.len(),
{
    let input = frame_wires(frames);
    let start = SessionView { inbound: s.inbound + input, ..s };
    assert(s.inbound + input =~= input);
    if frames.len() == 0 {
        assert(input =~= Seq::<u8>::empty());
        assert(codec::leading_header(input, s.decoder.max_frame_size) == Ok::<
            Option<(codec::Header, int)>,
            Error,
        >(None)) by {
            codec::lemma_position(input, crate::frame::LF);
        }
        assert(start.receive() == Ok::<SessionView, Error>(start));
        assert(start =~= s);
    } else {
        let f = frames[0];
        let rest = frame_wires(frames.drop_first());
        codec::law_round_trip(f, s.decoder.max_frame_size, rest);
        codec::lemma_decode_consumes(s.decoder, input);
        if let (core, Ok(_)) = s.core.handle_frame(f) {
            let next = SessionView { core, ..s };
            let tail = frames.drop_first();
            assert forall|i: int| 0 <= i < tail.len() implies (#[trigger] tail[i]).valid() by {
                assert(tail[i] == frames[i + 1]);
            }
            law_encoded_frames_arrive(next, tail);
            assert(next.inbound + rest =~= rest);
        }
    }
}

/// Two sessions that are set up for each other understand each other's greetings: what a fresh
/// session writes, where it fits one frame and the windows, makes any fresh peer ready, knowing
/// the greeting, and reporting it and nothing else.
pub proof fn law_sessions_exchange_greetings(config: ConfigView, peer: ConfigView)
    requires
        config.greeting.payload().len() <= config.window_size,
        config.greeting.payload().len() <= channel::clamped(config.max_frame_size),
        config.greeting.payload().len() <= peer.window_size,
        peer.window_size <= window::MAX_WINDOW_SIZE,
    ensures
        match SessionView::fresh(peer).handle_input(SessionView::fresh(config).core.outbound) {
            Ok(t) => {
                &&& t.core.state == State::Ready
                &&& t.core.peer_greeting == Some(config.greeting)
                &&& t.core.events == seq![EventView::GreetingReceived(config.greeting)]
                &&& t.inbound.len() == 0
            },
            Err(_) => false,
        },
{
    let f = greeting_frame(config.greeting);
    let listener = SessionView::fresh(peer);
    let frames = seq![FrameView::Data(f)];
    lemma_fresh_outbound(config);
    assert(frame_wires(frames) == f.wire()) by {
        reveal_with_fuel(frame_wires, 2);
        assert(frames.drop_first() =~= Seq::empty());
        assert(f.wire() + Seq::<u8>::empty() =~= f.wire());
    }
    law_encoded_frames_arrive(listener, frames);
    lemma_greeting_taken(peer, config.greeting);
    assert(handle_frames(listener.core, frames) == Ok::<CoreView, Error>(
        listener.core.handle_frame(FrameView::Data(f)).0,
    )) by {
        reveal_with_fuel(handle_frames, 2);
        assert(frames.drop_first() =~= Seq::empty());
    }
}

/// The frame that carries a greeting.
spec fn greeting_frame(greeting: GreetingView) -> DataView {
    DataView {
        kind: FrameKind::Rpy,
        channel: GREETING_CHANNEL,
        msgno: 0,
        more: false,
        seqno: 0,
        ansno: None,
        payload: greeting.payload(),
    }
}

/// A greeting that fits leaves a fresh session as one frame.
proof fn lemma_fresh_outbound(config: ConfigView)
    requires
        config.greeting.payload().len() <= config.window_size,
        config.greeting.payload().len() <= channel::clamped(config.max_frame_size),
    ensures
        CoreView::fresh(config).outbound == greeting_frame(config.greeting).wire(),
{
    let payload = config.greeting.payload();
    let f = greeting_frame(config.greeting);
    let greeting = MessageView { kind: FrameKind::Rpy, msgno: 0, ansno: None, payload };
    let zero = ChannelView::fresh(GREETING_CHANNEL, Seq::empty(), config.window_size);
    lemma_single_frame(zero, greeting, config.max_frame_size);
    assert(zero.frame(FrameKind::Rpy, 0, None, 0, payload, false) == f);
    let blank = CoreView::blank(config);
    let queue = Seq::<MessageView>::empty().push(greeting);
    assert(entry(blank.queues, GREETING_CHANNEL) =~= Seq::empty());
    let mine = blank.enqueue(GREETING_CHANNEL, greeting);
    assert(mine.queues[GREETING_CHANNEL] =~= queue);
    let done = flushed(zero, queue, config.max_frame_size);
    assert(wires(done.frames) == f.wire()) by {
        reveal_with_fuel(wires, 2);
        assert(done.frames =~= seq![f]);
        assert(seq![f].drop_last() =~= Seq::empty());
        assert(Seq::<u8>::empty() + f.wire() =~= f.wire());
    }
    assert(Seq::<u8>::empty() + f.wire() =~= f.wire());
}

/// A fresh session takes the frame of a greeting that fits its window.
proof fn lemma_greeting_taken(peer: ConfigView, greeting: GreetingView)
    requires
        greeting.payload().len() <= peer.window_size,
        peer.window_size <= window::MAX_WINDOW_SIZE,
    ensures
        ({
            let (t, r) = CoreView::fresh(peer).handle_frame(
                FrameView::Data(greeting_frame(greeting)),
            );
            &&& r is Ok
            &&& t.state == State::Ready
            &&& t.peer_greeting == Some(greeting)
            &&& t.events == seq![EventView::GreetingReceived(greeting)]
        }),
{
    lemma_fresh_zero(peer);
    crate::greeting::law_greeting_frames_round_trip(greeting);
    let core = CoreView::fresh(peer);
    let f = greeting_frame(greeting);
    assert(GreetingView::of_frame(f) == Ok::<GreetingView, Error>(greeting));
    let (c, r) = core.zero.accept(f);
    assert(r is Ok);
    let (s, r2) = (CoreView { zero: c, ..core }).acknowledge(
        GREETING_CHANNEL,
        f.payload.len() as u32,
    );
    assert(r2 is Ok);
    assert(s.events == core.events);
    assert(Seq::<EventView>::empty().push(EventView::GreetingReceived(greeting)) =~= seq![
        EventView::GreetingReceived(greeting),
    ]);
}

/// Flushing changes nothing about what a fresh session expects of its peer.
proof fn lemma_fresh_zero(config: ConfigView)
    ensures
        ({
            let core = CoreView::fresh(config);
            &&& core.config == config
            &&& core.state == State::AwaitingGreeting
            &&& core.zero.number == GREETING_CHANNEL
            &&& core.zero.expected_seqno == 0
            &&& core.zero.recv_window == (window::WindowView {
                base: 0,
                size: config.window_size,
            })
            &&& core.zero.partial is None
            &&& core.unacked == Map::<u32, u32>::empty()
            &&& core.events == Seq::<EventView>::empty()
        }),
{
    let greeting = MessageView {
        kind: FrameKind::Rpy,
        msgno: 0,
        ansno: None,
        payload: config.greeting.payload(),
    };
    let mine = CoreView::blank(config).enqueue(GREETING_CHANNEL, greeting);
    law_pacing_keeps_every_octet_in_order(
        mine.zero,
        mine.queues[GREETING_CHANNEL],
        config.max_frame_size,
    );
}

/// A message that fits the window and one frame leaves as one frame.
proof fn lemma_single_frame(channel: ChannelView, m: MessageView, max: u32)
    requires
        m.ansno is None,
        m.kind != FrameKind::Ans,
        m.msgno <= crate::frame::MAX_MSG_NO,
        channel.number <= crate::frame::MAX_CHANNEL_NO,
        m.payload.len() <= channel.writable(),
        m.payload.len() <= channel::clamped(max),
    ensures
        flushed(channel, Seq::empty().push(m), max).frames == seq![
            channel.frame(m.kind, m.msgno, m.ansno, channel.next_seqno, m.payload, false),
        ],
{
    let queue = Seq::<MessageView>::empty().push(m);
    let frame = channel.frame(m.kind, m.msgno, m.ansno, channel.next_seqno, m.payload, false);
    assert(queue.drop_first() =~= Seq::empty());
    reveal_with_fuel(flushed, 2);
    reveal(ChannelView::emit);
    assert(seq![frame] + Seq::<DataView>::empty() =~= seq![frame]);
    if m.payload.len() == 0 {
        assert(m.payload =~= Seq::empty());
    } else {
        reveal(ChannelView::fragments);
        assert(m.payload.take(m.payload.len() as int) =~= m.payload);
        assert(m.payload.skip(m.payload.len() as int) =~= Seq::empty());
    }
}

/// Closing channel 0 closes everything: no channel stays open, nothing waits to be written, and
/// the last thing reported is that the session is closed.
pub proof fn law_closing_channel_zero_ends_the_session(s: CoreView)
    ensures
        ({
            let t = s.finish_close(GREETING_CHANNEL);
            &&& t.state == State::Closed
            &&& t.channels == Map::<u32, ChannelView>::empty()
            &&& t.queues == Map::<u32, Seq<MessageView>>::empty()
            &&& t.events == s.events.push(EventView::SessionClosed)
            &&& t.outbound == s.outbound
        }),
{
}

/// A channel that is closed is gone, with everything kept for it; the others stay as they are.
pub proof fn law_closing_a_channel_leaves_the_others(s: CoreView, channel: u32, other: u32)
    requires
        channel != GREETING_CHANNEL,
        other != channel,
    ensures
        ({
            let t = s.finish_close(channel);
            &&& !t.channels.contains_key(channel)
            &&& !t.queues.contains_key(channel)
            &&& t.state == s.state
            &&& t.channels.contains_key(other) == s.channels.contains_key(other)
            &&& t.channels.contains_key(other) ==> t.channels[other] == s.channels[other]
        }),
{
}

/// A refused close leaves the channel open, and a refused start opens none: only the events and
/// the record of the request change.
pub proof fn law_refusals_change_no_channel(s: CoreView, msgno: u32, error: ErrorReplyView)
    requires
        s.pending.contains_key(msgno),
    ensures
        ({
            let (t, r) = s.dispatch(FrameKind::Error, msgno, ManagementView::Error(error));
            &&& r is Ok
            &&& t.channels == s.channels
            &&& t.state == s.state
            &&& !t.pending.contains_key(msgno)
            &&& t.events == s.events.push(
                match s.pending[msgno] {
                    Pending::Start(number) => EventView::StartRefused { channel: number, error },
                    Pending::Close(number) => EventView::CloseRefused { channel: number, error },
                },
            )
        }),
{
}

/// A reply on channel 0 that answers no request of this end is fatal.
pub proof fn law_unasked_replies_are_refused(
    s: CoreView,
    kind: FrameKind,
    msgno: u32,
    m: ManagementView,
)
    requires
        !s.pending.contains_key(msgno),
        kind != FrameKind::Msg,
    ensures
        s.dispatch(kind, msgno, m).1 is Err,
{
}

} // verus!
