//! Per-channel state: message numbering, flow control and fragment reassembly.
//!
//! A [`Channel`] owns the bookkeeping BEEP requires for one channel of one session, and
//! nothing else: it has no idea what a socket is, and it never decides policy. It answers
//! two questions:
//!
//! - *what may I send right now, and what frames does that become?* is [`Channel::emit`],
//!   which fragments a payload to fit both the peer's window and the frame size limit, and
//!   hands back whatever did not fit so the caller can resume after the next `SEQ`;
//! - *is this arriving frame legal, and does it complete a message?* is [`Channel::accept`].
//!
//! # Message numbers
//!
//! A message number identifies an exchange, and may be reused once that exchange finishes.
//! [`Channel::allocate_msgno`] hands out the next free one, wrapping past
//! [`MAX_MSG_NO`] back to zero; [`Channel::reserve_msgno`] takes a specific one. Either way
//! a number in flight cannot be handed out twice.

use crate::error::Error;
use crate::frame::{
    self, DataFrame, DataView, FrameKind, SeqFrame, SeqView, MAX_CHANNEL_NO, MAX_FRAME_SIZE,
    MAX_MSG_NO,
};
use crate::octets;
use crate::window::{self, SeqNo, Window, WindowView, DEFAULT_WINDOW_SIZE};
use bytes::{Bytes, BytesMut};
use std::collections::{BTreeMap, BTreeSet};
use vstd::prelude::*;
use vstd::std_specs::cmp::OrdSpec;
use vstd::std_specs::iter::IteratorSpec;

verus! {

broadcast use vstd::laws_cmp::group_laws_cmp;

/// What one call to [`Channel::emit`] produced.
#[derive(Debug, Clone, PartialEq, Eq)]
pub struct Emitted {
    /// The frames to write, in order. All but the last carry the continuation indicator when
    /// more of the message is still to come.
    pub frames: Vec<DataFrame>,
    /// The part of the payload the window could not take.
    ///
    /// Empty means the message was emitted in full. Otherwise the channel is stalled: hold
    /// these octets and call [`Channel::emit`] again once a `SEQ` frame has been applied.
    pub remaining: Bytes,
}

/// The frames and what is left of a payload, as views.
#[verifier::ext_equal]
pub struct EmittedView {
    pub frames: Seq<DataView>,
    pub remaining: Seq<u8>,
}

impl View for Emitted {
    type V = EmittedView;

    open spec fn view(&self) -> EmittedView {
        EmittedView {
            frames: self.frames@.map_values(|f: DataFrame| f@),
            remaining: octets::octets(self.remaining),
        }
    }
}

impl Emitted {
    /// Whether the whole payload was turned into frames.
    #[must_use]
    pub fn is_complete(&self) -> (r: bool)
        ensures
            r == (self@.remaining.len() == 0),
    {
        self.remaining.len() == 0
    }
}

/// A message reassembled from one or more frames.
#[derive(Debug, Clone, PartialEq, Eq)]
pub struct Message {
    /// Which of `MSG`, `RPY`, `ERR`, `ANS` or `NUL` carried it.
    pub kind: FrameKind,
    /// The message number of the exchange.
    pub msgno: u32,
    /// The answer number, for `ANS` only.
    pub ansno: Option<u32>,
    /// The joined payload.
    pub payload: Bytes,
}

/// What a message says, or the part of it that has arrived.
#[verifier::ext_equal]
pub struct MessageView {
    pub kind: FrameKind,
    pub msgno: u32,
    pub ansno: Option<u32>,
    pub payload: Seq<u8>,
}

impl View for Message {
    type V = MessageView;

    open spec fn view(&self) -> MessageView {
        MessageView {
            kind: self.kind,
            msgno: self.msgno,
            ansno: self.ansno,
            payload: octets::octets(self.payload),
        }
    }
}

impl MessageView {
    /// Whether a frame belongs to this message.
    pub open spec fn matches(self, f: DataView) -> bool {
        self.kind == f.kind && self.msgno == f.msgno && self.ansno == f.ansno
    }

    /// The message that one frame carries.
    pub open spec fn of_frame(f: DataView) -> MessageView {
        MessageView { kind: f.kind, msgno: f.msgno, ansno: f.ansno, payload: f.payload }
    }
}

/// A message being reassembled from continuation frames.
#[derive(Debug, Clone)]
struct Partial {
    kind: FrameKind,
    msgno: u32,
    ansno: Option<u32>,
    payload: BytesMut,
}

impl View for Partial {
    type V = MessageView;

    closed spec fn view(&self) -> MessageView {
        MessageView {
            kind: self.kind,
            msgno: self.msgno,
            ansno: self.ansno,
            payload: octets::buffered(self.payload),
        }
    }
}

impl Partial {
    fn matches(&self, frame: &DataFrame) -> (r: bool)
        ensures
            r == self@.matches(frame@),
    {
        if self.kind != frame.kind() || self.msgno != frame.msgno() {
            return false;
        }
        match (self.ansno, frame.ansno()) {
            (Some(a), Some(b)) => a == b,
            (None, None) => true,
            _ => false,
        }
    }
}

/// The message number after `msgno`.
pub open spec fn next_number(msgno: u32) -> u32 {
    if msgno >= MAX_MSG_NO {
        0
    } else {
        (msgno + 1) as u32
    }
}

/// Looks for a free message number from `from` on, `tries` times at most: the number, if one was
/// found, and where the next search begins.
pub open spec fn search_free(taken: Set<u32>, from: u32, tries: nat) -> (Option<u32>, u32)
    decreases tries,
{
    if tries == 0 {
        (None, from)
    } else if !taken.contains(from) {
        (Some(from), next_number(from))
    } else {
        search_free(taken, next_number(from), (tries - 1) as nat)
    }
}

/// How many message numbers there are.
pub open spec fn numbers() -> nat {
    (MAX_MSG_NO + 1) as nat
}

/// What a channel knows.
#[verifier::ext_equal]
pub struct ChannelView {
    pub number: u32,
    pub profile: Seq<char>,
    /// What the peer has acknowledged and how much more it will take.
    pub send_window: WindowView,
    /// The sequence number the next outgoing octet will carry.
    pub next_seqno: u32,
    /// Where the search for a free message number begins.
    pub next_msgno: u32,
    /// Message numbers sent and not yet completed.
    pub outstanding: Set<u32>,
    /// The next answer number of each one-to-many reply under way.
    pub next_ansno: Map<u32, u32>,
    /// The window this end has advertised.
    pub recv_window: WindowView,
    /// The sequence number the next incoming octet must carry.
    pub expected_seqno: u32,
    /// Message numbers received and not yet replied to.
    pub awaiting_reply: Set<u32>,
    /// What has arrived of a message that is not complete.
    pub partial: Option<MessageView>,
}

impl ChannelView {
    /// A channel as it is opened.
    pub open spec fn fresh(number: u32, profile: Seq<char>, window_size: u32) -> ChannelView {
        let window = WindowView { base: 0, size: window_size };
        ChannelView {
            number,
            profile,
            send_window: window,
            next_seqno: 0,
            next_msgno: 0,
            outstanding: Set::empty(),
            next_ansno: Map::empty(),
            recv_window: window,
            expected_seqno: 0,
            awaiting_reply: Set::empty(),
            partial: None,
        }
    }

    /// How many octets may still be written before the channel stalls.
    pub open spec fn writable(self) -> u32 {
        self.send_window.remaining(self.next_seqno)
    }

    /// A frame that carries `payload` at `seqno` on this channel.
    pub open spec fn frame(
        self,
        kind: FrameKind,
        msgno: u32,
        ansno: Option<u32>,
        seqno: u32,
        payload: Seq<u8>,
        more: bool,
    ) -> DataView {
        DataView { kind, channel: self.number, msgno, more, seqno, ansno, payload }
    }

    /// The frames that carry `head` from `seqno` on, none larger than `limit`. All but the last
    /// say that more follows; the last says so where the message goes on (`tail`).
    #[verifier::opaque]
    pub open spec fn fragments(
        self,
        kind: FrameKind,
        msgno: u32,
        ansno: Option<u32>,
        seqno: u32,
        head: Seq<u8>,
        tail: bool,
        limit: nat,
    ) -> Seq<DataView>
        decreases head.len(),
    {
        if head.len() == 0 || limit == 0 {
            Seq::empty()
        } else if head.len() <= limit {
            seq![self.frame(kind, msgno, ansno, seqno, head, tail)]
        } else {
            seq![self.frame(kind, msgno, ansno, seqno, head.take(limit as int), true)]
                + self.fragments(
                kind,
                msgno,
                ansno,
                window::advanced(seqno, limit as int),
                head.skip(limit as int),
                tail,
                limit,
            )
        }
    }

    /// The first fragment, and those that follow it.
    proof fn lemma_fragments_step(
        self,
        kind: FrameKind,
        msgno: u32,
        ansno: Option<u32>,
        seqno: u32,
        head: Seq<u8>,
        tail: bool,
        limit: nat,
    )
        requires
            head.len() > 0,
            limit > 0,
        ensures
            ({
                let n: int = if limit < head.len() {
                    limit as int
                } else {
                    head.len() as int
                };
                self.fragments(kind, msgno, ansno, seqno, head, tail, limit) == seq![
                    self.frame(kind, msgno, ansno, seqno, head.take(n), n < head.len() || tail),
                ] + self.fragments(
                    kind,
                    msgno,
                    ansno,
                    window::advanced(seqno, n),
                    head.skip(n),
                    tail,
                    limit,
                )
            }),
    {
        reveal_with_fuel(ChannelView::fragments, 2);
        if head.len() <= limit {
            assert(head.take(head.len() as int) =~= head);
            assert(head.skip(head.len() as int).len() == 0);
            assert(seq![self.frame(kind, msgno, ansno, seqno, head, tail)] =~= seq![
                self.frame(kind, msgno, ansno, seqno, head, tail),
            ] + Seq::<DataView>::empty());
        }
    }

    /// What emitting a message gives: the channel afterwards and the frames, or the error, in
    /// which case the channel stays as it is.
    #[verifier::opaque]
    pub open spec fn emit(
        self,
        kind: FrameKind,
        msgno: u32,
        ansno: Option<u32>,
        payload: Seq<u8>,
        max_frame_size: u32,
    ) -> Result<(ChannelView, EmittedView), Error> {
        let empty = self.frame(kind, msgno, ansno, self.next_seqno, Seq::empty(), false);
        if (kind == FrameKind::Ans) != (ansno is Some) {
            Err(Error::MissingField { field: "ansno" })
        } else if payload.len() > 0 && self.writable() == 0 {
            Err(Error::ChannelStalled)
        } else if empty.checked() is Err {
            Err(empty.checked()->Err_0)
        } else if payload.len() == 0 {
            Ok((self, EmittedView { frames: seq![empty], remaining: Seq::empty() }))
        } else {
            let cut: int = if payload.len() < self.writable() {
                payload.len() as int
            } else {
                self.writable() as int
            };
            Ok(
                (
                    ChannelView { next_seqno: window::advanced(self.next_seqno, cut), ..self },
                    EmittedView {
                        frames: self.fragments(
                            kind,
                            msgno,
                            ansno,
                            self.next_seqno,
                            payload.take(cut),
                            cut < payload.len(),
                            clamped(max_frame_size),
                        ),
                        remaining: payload.skip(cut),
                    },
                ),
            )
        }
    }

    /// What accepting a frame gives: the channel afterwards, and the message where the frame
    /// completes one, or the error.
    pub open spec fn accept(self, f: DataView) -> (ChannelView, Result<
        Option<MessageView>,
        Error,
    >) {
        let len = f.payload.len() as int;
        let counted = ChannelView {
            expected_seqno: window::advanced(f.seqno, len),
            awaiting_reply: if f.kind == FrameKind::Msg && !f.more {
                self.awaiting_reply.insert(f.msgno)
            } else {
                self.awaiting_reply
            },
            partial: None,
            ..self
        };
        let whole = match self.partial {
            None => MessageView::of_frame(f),
            Some(p) => MessageView { payload: p.payload + f.payload, ..p },
        };
        if f.seqno != self.expected_seqno {
            (
                self,
                Err(Error::UnexpectedSeqNo { found: f.seqno, expected: self.expected_seqno }),
            )
        } else if !self.recv_window.accepts(f.seqno, len) {
            (
                self,
                Err(
                    Error::OutsideWindow {
                        seqno: f.seqno,
                        len: len as u32,
                        limit: self.recv_window.limit(),
                    },
                ),
            )
        } else if self.partial is Some && !self.partial->0.matches(f) {
            (counted, Err(Error::InterleavedFragment))
        } else if f.more {
            (ChannelView { partial: Some(whole), ..counted }, Ok(None))
        } else {
            (counted, Ok(Some(whole)))
        }
    }

    /// What taking the next free message number gives.
    pub open spec fn allocate(self) -> (ChannelView, Result<u32, Error>) {
        match search_free(self.outstanding, self.next_msgno, numbers()) {
            (Some(n), next) => (
                ChannelView {
                    next_msgno: next,
                    outstanding: self.outstanding.insert(n),
                    ..self
                },
                Ok(n),
            ),
            (None, next) => (ChannelView { next_msgno: next, ..self }, Err(Error::MsgNoExhausted)),
        }
    }

    /// What taking a given message number gives.
    pub open spec fn reserve(self, msgno: u32) -> (ChannelView, Result<(), Error>) {
        if msgno > MAX_MSG_NO {
            (self, Err(Error::ValueOutOfRange { field: "msgno", max: MAX_MSG_NO }))
        } else if self.outstanding.contains(msgno) {
            (self, Err(Error::MsgNoInUse { msgno }))
        } else {
            (
                ChannelView {
                    next_msgno: next_number(msgno),
                    outstanding: self.outstanding.insert(msgno),
                    ..self
                },
                Ok(()),
            )
        }
    }

    /// The answer number that the next answer to `msgno` carries.
    pub open spec fn answer_number(self, msgno: u32) -> u32 {
        if self.next_ansno.contains_key(msgno) {
            self.next_ansno[msgno]
        } else {
            0
        }
    }

    /// The channel once the next answer number for `msgno` has been taken.
    pub open spec fn allocate_ansno(self, msgno: u32) -> ChannelView {
        ChannelView {
            next_ansno: self.next_ansno.insert(
                msgno,
                window::advanced(self.answer_number(msgno), 1),
            ),
            ..self
        }
    }

    /// The channel once a `SEQ` frame has been applied.
    pub open spec fn apply_seq(self, f: SeqView) -> ChannelView {
        ChannelView { send_window: WindowView { base: f.ackno, size: f.window }, ..self }
    }

    /// Whether a header can carry the channel's number and the window it advertises.
    pub open spec fn within_limits(self) -> bool {
        self.number <= MAX_CHANNEL_NO && self.recv_window.size <= window::MAX_WINDOW_SIZE
    }

    /// The channel once `octets` of received payload have been handed on.
    pub open spec fn consume(self, octets: u32) -> ChannelView {
        ChannelView { recv_window: self.recv_window.consumed(octets), ..self }
    }
}

/// One channel of a BEEP session.
#[derive(Debug, Clone)]
pub struct Channel {
    number: u32,
    profile: String,
    send_window: Window,
    next_seqno: SeqNo,
    next_msgno: u32,
    outstanding: BTreeSet<u32>,
    next_ansno: BTreeMap<u32, u32>,
    recv_window: Window,
    expected_seqno: SeqNo,
    awaiting_reply: BTreeSet<u32>,
    partial: Option<Partial>,
}

impl View for Channel {
    type V = ChannelView;

    closed spec fn view(&self) -> ChannelView {
        ChannelView {
            number: self.number,
            profile: self.profile@,
            send_window: self.send_window@,
            next_seqno: self.next_seqno@,
            next_msgno: self.next_msgno,
            outstanding: self.outstanding@,
            next_ansno: self.next_ansno@,
            recv_window: self.recv_window@,
            expected_seqno: self.expected_seqno@,
            awaiting_reply: self.awaiting_reply@,
            partial: match self.partial {
                Some(p) => Some(p@),
                None => None,
            },
        }
    }
}

/// The view of a message that may be absent, or of the error in its place.
pub open spec fn message_result(r: Result<Option<Message>, Error>) -> Result<
    Option<MessageView>,
    Error,
> {
    match r {
        Ok(Some(m)) => Ok(Some(m@)),
        Ok(None) => Ok(None),
        Err(e) => Err(e),
    }
}

impl Channel {
    /// Opens a channel with the default window in both directions.
    ///
    /// A number above [`MAX_CHANNEL_NO`] is for no header to carry: [`Channel::emit`] and
    /// [`Channel::consume`] refuse to build frames for such a channel.
    #[must_use]
    pub fn new(number: u32, profile: &str) -> (r: Channel)
        ensures
            r@ == ChannelView::fresh(number, profile@, DEFAULT_WINDOW_SIZE),
    {
        Channel::with_window_size(number, profile, DEFAULT_WINDOW_SIZE)
    }

    /// Opens a channel advertising `window_size` octets in both directions.
    ///
    /// A number above [`MAX_CHANNEL_NO`] is for no header to carry, nor is a window above
    /// [`MAX_WINDOW_SIZE`](window::MAX_WINDOW_SIZE): [`Channel::emit`] refuses to build frames on
    /// such a number, and [`Channel::consume`] on either. With anything else `consume` succeeds.
    #[must_use]
    pub fn with_window_size(number: u32, profile: &str, window_size: u32) -> (r: Channel)
        ensures
            r@ == ChannelView::fresh(number, profile@, window_size),
    {
        Channel {
            number,
            profile: profile.to_owned(),
            send_window: Window::new(SeqNo::zero(), window_size),
            next_seqno: SeqNo::zero(),
            next_msgno: 0,
            outstanding: BTreeSet::new(),
            next_ansno: BTreeMap::new(),
            recv_window: Window::new(SeqNo::zero(), window_size),
            expected_seqno: SeqNo::zero(),
            awaiting_reply: BTreeSet::new(),
            partial: None,
        }
    }

    /// The channel number.
    #[must_use]
    pub fn number(&self) -> (r: u32)
        ensures
            r == self@.number,
    {
        self.number
    }

    /// The profile URI the channel was started with.
    #[must_use]
    pub fn profile(&self) -> (r: &str)
        ensures
            r@ == self@.profile,
    {
        self.profile.as_str()
    }

    // ---- outgoing ----------------------------------------------------------------

    /// The peer's window: what it has acknowledged and how much more it will take.
    #[must_use]
    pub fn send_window(&self) -> (r: Window)
        ensures
            r@ == self@.send_window,
    {
        self.send_window
    }

    /// The sequence number the next outgoing octet will carry.
    #[must_use]
    pub fn next_seqno(&self) -> (r: SeqNo)
        ensures
            r@ == self@.next_seqno,
    {
        self.next_seqno
    }

    /// How many octets may still be written before the channel stalls.
    #[must_use]
    pub fn writable(&self) -> (r: u32)
        ensures
            r == self@.writable(),
    {
        self.send_window.remaining(self.next_seqno)
    }

    /// Whether nothing more may be written until a `SEQ` frame arrives.
    #[must_use]
    pub fn is_stalled(&self) -> (r: bool)
        ensures
            r == (self@.writable() == 0),
    {
        self.writable() == 0
    }

    /// Message numbers sent and not yet completed, in ascending order.
    pub fn outstanding(&self) -> (r: Vec<u32>)
        ensures
            ascending(r@),
            r@.to_set() == self@.outstanding,
    {
        numbers_of(&self.outstanding)
    }

    /// Takes the next free message number, wrapping past [`MAX_MSG_NO`] back to zero.
    ///
    /// # Errors
    ///
    /// Returns [`Error::MsgNoExhausted`] when every number is in flight, which needs
    /// 2^31 concurrent unanswered messages on one channel.
    pub fn allocate_msgno(&mut self) -> (r: Result<u32, Error>)
        ensures
            (final(self)@, r) == old(self)@.allocate(),
            r matches Ok(n) ==> !old(self)@.outstanding.contains(n),
    {
        let ghost before = self@;
        let mut tries: u64 = MAX_MSG_NO as u64 + 1;
        while tries > 0
            invariant
                before == old(self)@,
                search_free(before.outstanding, before.next_msgno, numbers()) == search_free(
                    before.outstanding,
                    self.next_msgno,
                    tries as nat,
                ),
                self@ == (ChannelView { next_msgno: self.next_msgno, ..before }),
            decreases tries,
        {
            let candidate: u32 = self.next_msgno;
            self.next_msgno = if candidate >= MAX_MSG_NO {
                0
            } else {
                candidate + 1
            };
            if !self.outstanding.contains(&candidate) {
                self.outstanding.insert(candidate);
                return Ok(candidate);
            }
            tries -= 1;
        }
        Err(Error::MsgNoExhausted)
    }

    /// Takes a specific message number.
    ///
    /// # Errors
    ///
    /// Returns [`Error::MsgNoInUse`] when that number is still awaiting its reply, and
    /// [`Error::ValueOutOfRange`] when it exceeds [`MAX_MSG_NO`].
    pub fn reserve_msgno(&mut self, msgno: u32) -> (r: Result<(), Error>)
        ensures
            (final(self)@, r) == old(self)@.reserve(msgno),
    {
        let ghost before = self@;
        if msgno > MAX_MSG_NO {
            return Err(Error::ValueOutOfRange { field: "msgno", max: MAX_MSG_NO });
        }
        if !self.outstanding.insert(msgno) {
            assert(self@.outstanding =~= before.outstanding);
            return Err(Error::MsgNoInUse { msgno });
        }
        self.next_msgno = if msgno == MAX_MSG_NO {
            0
        } else {
            msgno + 1
        };
        Ok(())
    }

    /// Marks an exchange as finished, freeing its message number for reuse.
    pub fn release_msgno(&mut self, msgno: u32)
        ensures
            final(self)@ == (ChannelView {
                outstanding: old(self)@.outstanding.remove(msgno),
                ..old(self)@
            }),
    {
        self.outstanding.remove(&msgno);
    }

    /// Turns a payload into frames that fit the peer's window and the frame size limit.
    ///
    /// All but the final frame of a message carry the continuation indicator, and so does
    /// the final one emitted when the window ran out before the payload did, in which case
    /// [`Emitted::remaining`] holds the rest.
    ///
    /// An empty payload always produces exactly one frame, since a zero length frame
    /// consumes no window.
    ///
    /// # Errors
    ///
    /// Returns [`Error::ChannelStalled`] when there is payload to send and no window at all,
    /// [`Error::MissingField`] when an answer number is there without an `ANS`, or is missing
    /// from one, and [`Error::ValueOutOfRange`] when a header cannot carry the channel number,
    /// the message number or the answer number.
    pub fn emit(
        &mut self,
        kind: FrameKind,
        msgno: u32,
        ansno: Option<u32>,
        payload: Bytes,
        max_frame_size: u32,
    ) -> (r: Result<Emitted, Error>)
        ensures
            match r {
                Ok(e) => old(self)@.emit(
                    kind,
                    msgno,
                    ansno,
                    octets::octets(payload),
                    max_frame_size,
                ) == Ok::<(ChannelView, EmittedView), Error>((final(self)@, e@)),
                Err(e) => {
                    &&& old(self)@.emit(
                        kind,
                        msgno,
                        ansno,
                        octets::octets(payload),
                        max_frame_size,
                    ) == Err::<(ChannelView, EmittedView), Error>(e)
                    &&& final(self)@ == old(self)@
                },
            },
    {
        proof {
            reveal(ChannelView::emit);
        }
        if kind.has_ansno() != ansno.is_some() {
            return Err(Error::MissingField { field: "ansno" });
        }
        let chunk_limit: u32 = if max_frame_size < 1 {
            1
        } else if max_frame_size > MAX_FRAME_SIZE {
            MAX_FRAME_SIZE
        } else {
            max_frame_size
        };
        if payload.len() == 0 {
            return match self.build(kind, msgno, ansno, Bytes::new(), false) {
                Ok(frame) => {
                    let mut frames: Vec<DataFrame> = Vec::new();
                    frames.push(frame);
                    let out = Emitted { frames, remaining: Bytes::new() };
                    assert(out@.frames =~= seq![frame@]);
                    Ok(out)
                },
                Err(e) => Err(e),
            };
        }
        let budget: u32 = self.writable();
        if budget == 0 {
            return Err(Error::ChannelStalled);
        }
        let ghost all = octets::octets(payload);
        let mut remaining = payload;
        let cut: usize = if remaining.len() < budget as usize {
            remaining.len()
        } else {
            budget as usize
        };
        let head = remaining.split_to(cut);
        proof {
            assert(octets::octets(head) =~= all.take(cut as int));
            assert(octets::octets(remaining) =~= all.skip(cut as int));
        }
        let tail = remaining.len() > 0;
        match self.fragment(kind, msgno, ansno, head, tail, chunk_limit) {
            Ok(frames) => Ok(Emitted { frames, remaining }),
            Err(e) => Err(e),
        }
    }

    /// Cuts a part of a payload that the window has room for into frames of at most `limit`
    /// octets.
    #[verifier::rlimit(50)]
    #[verifier::spinoff_prover]
    fn fragment(
        &mut self,
        kind: FrameKind,
        msgno: u32,
        ansno: Option<u32>,
        head: Bytes,
        tail: bool,
        limit: u32,
    ) -> (r: Result<Vec<DataFrame>, Error>)
        requires
            (kind == FrameKind::Ans) == (ansno is Some),
            octets::octets(head).len() > 0,
            1 <= limit <= MAX_FRAME_SIZE,
        ensures
            match r {
                Ok(frames) => {
                    &&& frames@.map_values(|f: DataFrame| f@) == old(self)@.fragments(
                        kind,
                        msgno,
                        ansno,
                        old(self)@.next_seqno,
                        octets::octets(head),
                        tail,
                        limit as nat,
                    )
                    &&& old(self)@.frame(
                        kind,
                        msgno,
                        ansno,
                        old(self)@.next_seqno,
                        Seq::empty(),
                        false,
                    ).checked() is Ok
                    &&& final(self)@ == (ChannelView {
                        next_seqno: window::advanced(
                            old(self)@.next_seqno,
                            octets::octets(head).len() as int,
                        ),
                        ..old(self)@
                    })
                },
                Err(e) => {
                    &&& old(self)@.frame(
                        kind,
                        msgno,
                        ansno,
                        old(self)@.next_seqno,
                        Seq::empty(),
                        false,
                    ).checked() == Err::<DataView, Error>(e)
                    &&& final(self)@ == old(self)@
                },
            },
    {
        let ghost before = self@;
        let ghost whole = octets::octets(head);
        let mut head = head;
        let mut frames: Vec<DataFrame> = Vec::new();
        let ghost mut done: int = 0;
        proof {
            assert(whole.skip(0) =~= whole);
            assert(frames@.map_values(|f: DataFrame| f@) =~= Seq::empty());
            assert(before.fragments(kind, msgno, ansno, before.next_seqno, whole, tail, limit as nat)
                =~= Seq::<DataView>::empty() + before.fragments(
                kind,
                msgno,
                ansno,
                before.next_seqno,
                whole,
                tail,
                limit as nat,
            ));
        }
        while head.len() > 0
            invariant
                before == old(self)@,
                0 <= done <= whole.len(),
                whole.len() > 0,
                1 <= limit <= MAX_FRAME_SIZE,
                (kind == FrameKind::Ans) == (ansno is Some),
                octets::octets(head) == whole.skip(done),
                self@ == (ChannelView {
                    next_seqno: window::advanced(before.next_seqno, done),
                    ..before
                }),
                done > 0 ==> before.frame(
                    kind,
                    msgno,
                    ansno,
                    before.next_seqno,
                    Seq::empty(),
                    false,
                ).checked() is Ok,
                before.fragments(
                    kind,
                    msgno,
                    ansno,
                    before.next_seqno,
                    whole,
                    tail,
                    limit as nat,
                ) == frames@.map_values(|f: DataFrame| f@) + before.fragments(
                    kind,
                    msgno,
                    ansno,
                    self@.next_seqno,
                    whole.skip(done),
                    tail,
                    limit as nat,
                ),
            decreases octets::octets(head).len(),
        {
            let ghost rest = octets::octets(head);
            let ghost sent = frames@.map_values(|f: DataFrame| f@);
            let ghost seqno = self@.next_seqno;
            let take: usize = if (limit as usize) < head.len() {
                limit as usize
            } else {
                head.len()
            };
            let chunk = head.split_to(take);
            let more = head.len() > 0 || tail;
            let ghost piece = octets::octets(chunk);
            match self.build(kind, msgno, ansno, chunk, more) {
                Ok(frame) => {
                    frames.push(frame);
                    proof {
                        assert(octets::octets(head) =~= whole.skip(done + take));
                        assert(frames@.map_values(|f: DataFrame| f@) =~= sent.push(frame@));
                        before.lemma_fragments_step(
                            kind,
                            msgno,
                            ansno,
                            seqno,
                            rest,
                            tail,
                            limit as nat,
                        );
                        assert(piece =~= rest.take(take as int));
                        assert(rest.skip(take as int) =~= whole.skip(done + take));
                        let after = before.fragments(
                            kind,
                            msgno,
                            ansno,
                            window::advanced(seqno, take as int),
                            whole.skip(done + take),
                            tail,
                            limit as nat,
                        );
                        assert(sent + (seq![frame@] + after) =~= sent.push(frame@) + after);
                        done = done + take;
                    }
                },
                Err(e) => {
                    return Err(e);
                },
            }
        }
        proof {
            reveal(ChannelView::fragments);
            assert(frames@.map_values(|f: DataFrame| f@) =~= before.fragments(
                kind,
                msgno,
                ansno,
                before.next_seqno,
                whole,
                tail,
                limit as nat,
            ));
        }
        Ok(frames)
    }

    /// Builds one frame and charges its payload against the outgoing counters.
    fn build(
        &mut self,
        kind: FrameKind,
        msgno: u32,
        ansno: Option<u32>,
        payload: Bytes,
        more: bool,
    ) -> (r: Result<DataFrame, Error>)
        requires
            (kind == FrameKind::Ans) == (ansno is Some),
            octets::octets(payload).len() <= MAX_FRAME_SIZE,
        ensures
            match r {
                Ok(f) => {
                    &&& f@ == old(self)@.frame(
                        kind,
                        msgno,
                        ansno,
                        old(self)@.next_seqno,
                        octets::octets(payload),
                        more,
                    )
                    &&& f@.checked() is Ok
                    &&& final(self)@ == (ChannelView {
                        next_seqno: window::advanced(
                            old(self)@.next_seqno,
                            octets::octets(payload).len() as int,
                        ),
                        ..old(self)@
                    })
                },
                Err(e) => {
                    &&& old(self)@.frame(
                        kind,
                        msgno,
                        ansno,
                        old(self)@.next_seqno,
                        octets::octets(payload),
                        more,
                    ).checked() == Err::<DataView, Error>(e)
                    &&& final(self)@ == old(self)@
                },
            },
    {
        let len: u32 = payload.len() as u32;
        let seqno = self.next_seqno;
        let frame = match ansno {
            Some(ansno) => DataFrame::new_ans(self.number, msgno, seqno.get(), ansno, payload),
            None => DataFrame::new(kind, self.number, msgno, seqno.get(), payload),
        };
        match frame {
            Ok(frame) => {
                self.next_seqno = seqno.advance(len);
                Ok(frame.with_more(more))
            },
            Err(e) => Err(e),
        }
    }

    /// Takes the next answer number for a one-to-many reply to `msgno`.
    ///
    /// Answer numbers restart at zero for every message being answered, and
    /// [`Channel::finish_answers`] releases the counter when the `NUL` goes out.
    pub fn allocate_ansno(&mut self, msgno: u32) -> (r: u32)
        ensures
            r == old(self)@.answer_number(msgno),
            final(self)@ == old(self)@.allocate_ansno(msgno),
    {
        let ansno: u32 = match self.next_ansno.get(&msgno) {
            Some(n) => *n,
            None => 0,
        };
        self.next_ansno.insert(msgno, ansno.wrapping_add(1));
        ansno
    }

    /// Ends a one-to-many reply, discarding its answer numbering.
    pub fn finish_answers(&mut self, msgno: u32)
        ensures
            final(self)@ == (ChannelView {
                next_ansno: old(self)@.next_ansno.remove(msgno),
                ..old(self)@
            }),
    {
        self.next_ansno.remove(&msgno);
    }

    /// Applies a received `SEQ` frame, moving the peer's window forward.
    pub fn apply_seq(&mut self, seq: &SeqFrame)
        ensures
            final(self)@ == old(self)@.apply_seq(seq@),
    {
        self.send_window = self.send_window.updated(SeqNo::new(seq.ackno()), seq.window());
    }

    // ---- incoming ----------------------------------------------------------------

    /// The window this end has advertised for incoming traffic.
    #[must_use]
    pub fn recv_window(&self) -> (r: Window)
        ensures
            r@ == self@.recv_window,
    {
        self.recv_window
    }

    /// The sequence number the next incoming octet must carry.
    #[must_use]
    pub fn expected_seqno(&self) -> (r: SeqNo)
        ensures
            r@ == self@.expected_seqno,
    {
        self.expected_seqno
    }

    /// Message numbers received and not yet replied to, in ascending order.
    pub fn awaiting_reply(&self) -> (r: Vec<u32>)
        ensures
            ascending(r@),
            r@.to_set() == self@.awaiting_reply,
    {
        numbers_of(&self.awaiting_reply)
    }

    /// Whether a message is partly reassembled and waiting for its continuation.
    #[must_use]
    pub fn has_partial_message(&self) -> (r: bool)
        ensures
            r == (self@.partial is Some),
    {
        self.partial.is_some()
    }

    /// Accepts an incoming data frame, returning the message when it completes one.
    ///
    /// Continuation frames return `Ok(None)` until the final fragment arrives.
    ///
    /// # Errors
    ///
    /// Returns [`Error::UnexpectedSeqNo`] for a gap or overlap in the octet stream,
    /// [`Error::OutsideWindow`] when the frame runs past what was advertised, and
    /// [`Error::InterleavedFragment`] when a different message begins while one is still
    /// being reassembled. All three are fatal for the session.
    pub fn accept(&mut self, frame: &DataFrame) -> (r: Result<Option<Message>, Error>)
        ensures
            (final(self)@, message_result(r)) == old(self)@.accept(frame@),
    {
        let seqno = SeqNo::new(frame.seqno());
        if seqno.get() != self.expected_seqno.get() {
            return Err(
                Error::UnexpectedSeqNo {
                    found: frame.seqno(),
                    expected: self.expected_seqno.get(),
                },
            );
        }
        let len: u32 = frame.size();
        if !self.recv_window.accepts(seqno, len) {
            return Err(
                Error::OutsideWindow {
                    seqno: frame.seqno(),
                    len,
                    limit: self.recv_window.limit().get(),
                },
            );
        }
        self.expected_seqno = seqno.advance(len);
        if frame.kind() == FrameKind::Msg && !frame.more() {
            self.awaiting_reply.insert(frame.msgno());
        }
        match self.partial.take() {
            Some(mut partial) => {
                if !partial.matches(frame) {
                    return Err(Error::InterleavedFragment);
                }
                partial.payload.extend_from_slice(frame.payload());
                if frame.more() {
                    self.partial = Some(partial);
                    return Ok(None);
                }
                Ok(
                    Some(
                        Message {
                            kind: partial.kind,
                            msgno: partial.msgno,
                            ansno: partial.ansno,
                            payload: partial.payload.freeze(),
                        },
                    ),
                )
            },
            None => {
                if frame.more() {
                    let mut payload = BytesMut::new();
                    payload.extend_from_slice(frame.payload());
                    assert(octets::buffered(payload) =~= frame@.payload);
                    self.partial = Some(
                        Partial {
                            kind: frame.kind(),
                            msgno: frame.msgno(),
                            ansno: frame.ansno(),
                            payload,
                        },
                    );
                    return Ok(None);
                }
                Ok(
                    Some(
                        Message {
                            kind: frame.kind(),
                            msgno: frame.msgno(),
                            ansno: frame.ansno(),
                            payload: frame.payload_bytes(),
                        },
                    ),
                )
            },
        }
    }

    /// Marks an incoming message as replied to.
    pub fn replied(&mut self, msgno: u32)
        ensures
            final(self)@ == (ChannelView {
                awaiting_reply: old(self)@.awaiting_reply.remove(msgno),
                ..old(self)@
            }),
    {
        self.awaiting_reply.remove(&msgno);
    }

    /// Records that `octets` of received payload have been handed to the application, and
    /// returns the `SEQ` frame that reopens the window.
    ///
    /// # Errors
    ///
    /// Returns [`Error::ValueOutOfRange`] if the channel number or window size cannot be
    /// carried in a header, which a channel opened within the limits is never made to hold but
    /// by [`Channel::set_recv_window_size`].
    pub fn consume(&mut self, octets: u32) -> (r: Result<SeqFrame, Error>)
        ensures
            final(self)@ == old(self)@.consume(octets),
            r is Ok <==> old(self)@.within_limits(),
            frame::seq_result(r) == final(self)@.recv_window.seq_frame(
                final(self)@.number,
            ).checked(),
    {
        self.recv_window = self.recv_window.consumed(octets);
        self.recv_window.to_seq_frame(self.number)
    }

    /// Changes the window advertised for incoming traffic.
    pub fn set_recv_window_size(&mut self, size: u32)
        ensures
            final(self)@ == (ChannelView {
                recv_window: WindowView { base: old(self)@.recv_window.base, size },
                ..old(self)@
            }),
    {
        self.recv_window = self.recv_window.resized(size);
    }
}

/// Whether a list of numbers is strictly ascending.
pub open spec fn ascending(s: Seq<u32>) -> bool {
    forall|i: int, j: int| 0 <= i < j < s.len() ==> s[i] < s[j]
}

/// The order in which a set is walked is the order of the numbers.
proof fn lemma_ascending(s: Seq<&u32>)
    requires
        vstd::std_specs::btree::increasing_seq(s),
    ensures
        ascending(s.unref()),
{
    assert(vstd::laws_cmp::obeys_cmp::<u32>());
    assert(vstd::laws_cmp::obeys_cmp::<&u32>());
    vstd::std_specs::btree::axiom_increasing_seq_meaning(s);
    assert forall|i: int, j: int| 0 <= i < j < s.unref().len() implies s.unref()[i]
        < s.unref()[j] by {
        assert(OrdSpec::cmp_spec(&s[i], &s[j]) is Less);
    }
}

/// The members of a set of numbers, in ascending order.
fn numbers_of(set: &BTreeSet<u32>) -> (r: Vec<u32>)
    ensures
        ascending(r@),
        r@.to_set() == set@,
{
    let mut out: Vec<u32> = Vec::new();
    let iter = set.iter();
    let ghost all = iter.remaining().unref();
    proof {
        lemma_ascending(iter.remaining());
    }
    for n in it: iter
        invariant
            it.seq().unref() == all,
            out@ == all.take(it.index() as int),
    {
        out.push(*n);
    }
    assert(all.take(all.len() as int) =~= all);
    out
}

/// The payloads of a run of frames, joined.
pub open spec fn joined(frames: Seq<DataView>) -> Seq<u8>
    decreases frames.len(),
{
    if frames.len() == 0 {
        Seq::empty()
    } else {
        frames[0].payload + joined(frames.drop_first())
    }
}

/// Whether a run of frames carries one message, or a part of it, as a channel may send it: each
/// frame within the size limit, the octets numbered without gap or overlap from `seqno` on, and
/// every frame but the last saying that more follows.
pub open spec fn contiguous(
    c: ChannelView,
    kind: FrameKind,
    msgno: u32,
    ansno: Option<u32>,
    seqno: u32,
    frames: Seq<DataView>,
    tail: bool,
    limit: nat,
) -> bool
    decreases frames.len(),
{
    frames.len() > 0 ==> {
        let f = frames[0];
        &&& f == c.frame(
            kind,
            msgno,
            ansno,
            seqno,
            f.payload,
            frames.len() > 1 || tail,
        )
        &&& f.payload.len() <= limit
        &&& contiguous(
            c,
            kind,
            msgno,
            ansno,
            window::advanced(seqno, f.payload.len() as int),
            frames.drop_first(),
            tail,
            limit,
        )
    }
}

proof fn lemma_fragments(
    c: ChannelView,
    kind: FrameKind,
    msgno: u32,
    ansno: Option<u32>,
    seqno: u32,
    head: Seq<u8>,
    tail: bool,
    limit: nat,
)
    requires
        limit > 0,
    ensures
        ({
            let frames = c.fragments(kind, msgno, ansno, seqno, head, tail, limit);
            &&& joined(frames) == head
            &&& contiguous(c, kind, msgno, ansno, seqno, frames, tail, limit)
            &&& head.len() > 0 ==> frames.len() > 0
        }),
    decreases head.len(),
{
    let frames = c.fragments(kind, msgno, ansno, seqno, head, tail, limit);
    if head.len() == 0 {
        reveal(ChannelView::fragments);
    } else {
        c.lemma_fragments_step(kind, msgno, ansno, seqno, head, tail, limit);
        let n: int = if limit < head.len() {
            limit as int
        } else {
            head.len() as int
        };
        let rest = c.fragments(
            kind,
            msgno,
            ansno,
            window::advanced(seqno, n),
            head.skip(n),
            tail,
            limit,
        );
        lemma_fragments(
            c,
            kind,
            msgno,
            ansno,
            window::advanced(seqno, n),
            head.skip(n),
            tail,
            limit,
        );
        assert(frames.drop_first() =~= rest);
        assert(head.take(n) + head.skip(n) =~= head);
        if n == head.len() {
            reveal(ChannelView::fragments);
        }
    }
}

/// The frame size limit that [`Channel::emit`] works to.
pub open spec fn clamped(max_frame_size: u32) -> nat {
    if max_frame_size < 1 {
        1
    } else if max_frame_size > MAX_FRAME_SIZE {
        MAX_FRAME_SIZE as nat
    } else {
        max_frame_size as nat
    }
}

/// Sending takes room from the peer's window, octet for octet.
proof fn lemma_writable_after(c: ChannelView, sent: int)
    requires
        0 <= sent <= c.writable(),
    ensures
        (ChannelView {
            next_seqno: window::advanced(c.next_seqno, sent),
            ..c
        }).writable() == c.writable() - sent,
{
}

/// What is emitted of a message is all of it or as much as the peer's window takes, which
/// shrinks by that much: the frames' payloads and what remains make up the message, the frames
/// keep to the size limit, number their octets without gap or overlap, and say that more follows
/// exactly where it does.
pub proof fn law_emit_fragments(
    c: ChannelView,
    kind: FrameKind,
    msgno: u32,
    ansno: Option<u32>,
    payload: Seq<u8>,
    max_frame_size: u32,
)
    ensures
        c.emit(kind, msgno, ansno, payload, max_frame_size) matches Ok((after, e)) ==> {
            &&& e.frames.len() > 0
            &&& joined(e.frames) + e.remaining == payload
            &&& joined(e.frames).len() <= c.writable()
            &&& e.remaining.len() > 0 ==> joined(e.frames).len() == c.writable()
            &&& after == (ChannelView {
                next_seqno: window::advanced(c.next_seqno, joined(e.frames).len() as int),
                ..c
            })
            &&& after.writable() == c.writable() - joined(e.frames).len()
            &&& contiguous(
                c,
                kind,
                msgno,
                ansno,
                c.next_seqno,
                e.frames,
                e.remaining.len() > 0,
                clamped(max_frame_size),
            )
        },
{
    reveal(ChannelView::emit);
    if let Ok((after, e)) = c.emit(kind, msgno, ansno, payload, max_frame_size) {
        reveal_with_fuel(joined, 2);
        reveal_with_fuel(contiguous, 2);
        if payload.len() == 0 {
            assert(e.frames.drop_first() =~= Seq::empty());
            assert(joined(e.frames) =~= Seq::<u8>::empty());
            assert(joined(e.frames) + e.remaining =~= payload);
            lemma_writable_after(c, 0);
            assert(window::advanced(c.next_seqno, 0) == c.next_seqno);
        } else {
            let cut: int = if payload.len() < c.writable() {
                payload.len() as int
            } else {
                c.writable() as int
            };
            lemma_fragments(
                c,
                kind,
                msgno,
                ansno,
                c.next_seqno,
                payload.take(cut),
                cut < payload.len(),
                clamped(max_frame_size),
            );
            lemma_writable_after(c, cut);
            assert(payload.take(cut) + payload.skip(cut) =~= payload);
        }
    }
}

/// What a channel makes of a run of frames: the channel afterwards, the messages they complete,
/// and the error that ends it, if one does.
pub open spec fn accept_all(c: ChannelView, frames: Seq<DataView>) -> (
    ChannelView,
    Seq<MessageView>,
    Option<Error>,
)
    decreases frames.len(),
{
    if frames.len() == 0 {
        (c, Seq::empty(), None)
    } else {
        match c.accept(frames[0]) {
            (after, Err(e)) => (after, Seq::empty(), Some(e)),
            (after, Ok(m)) => {
                let (end, messages, error) = accept_all(after, frames.drop_first());
                (
                    end,
                    match m {
                        Some(m) => seq![m] + messages,
                        None => messages,
                    },
                    error,
                )
            },
        }
    }
}

/// Octets from `seqno` on that the window takes in one run, it takes in two.
proof fn lemma_accepts_in_parts(w: WindowView, seqno: u32, first: int, second: int)
    requires
        0 <= first,
        0 <= second,
        w.accepts(seqno, first + second),
    ensures
        w.accepts(seqno, first),
        w.accepts(window::advanced(seqno, first), second),
{
}

proof fn lemma_reassembly(
    sender: ChannelView,
    receiver: ChannelView,
    kind: FrameKind,
    msgno: u32,
    ansno: Option<u32>,
    seqno: u32,
    frames: Seq<DataView>,
    tail: bool,
    limit: nat,
)
    requires
        frames.len() > 0,
        contiguous(sender, kind, msgno, ansno, seqno, frames, tail, limit),
        receiver.expected_seqno == seqno,
        receiver.recv_window.accepts(seqno, joined(frames).len() as int),
        receiver.partial matches Some(p) ==> p.kind == kind && p.msgno == msgno && p.ansno == ansno,
    ensures
        ({
            let (end, messages, error) = accept_all(receiver, frames);
            let before = match receiver.partial {
                Some(p) => p.payload,
                None => Seq::empty(),
            };
            let whole = MessageView { kind, msgno, ansno, payload: before + joined(frames) };
            &&& error is None
            &&& end.expected_seqno == window::advanced(seqno, joined(frames).len() as int)
            &&& end.recv_window == receiver.recv_window
            &&& if tail {
                messages.len() == 0 && end.partial == Some(whole)
            } else {
                messages == seq![whole] && end.partial is None
            }
        }),
    decreases frames.len(),
{
    let f = frames[0];
    let rest = frames.drop_first();
    lemma_accepts_in_parts(
        receiver.recv_window,
        seqno,
        f.payload.len() as int,
        joined(rest).len() as int,
    );
    let (after, r) = receiver.accept(f);
    let before = match receiver.partial {
        Some(p) => p.payload,
        None => Seq::empty(),
    };
    assert(before + (f.payload + joined(rest)) =~= before + f.payload + joined(rest));
    assert(Seq::<u8>::empty() + f.payload =~= f.payload);
    if rest.len() == 0 {
        reveal_with_fuel(accept_all, 2);
        assert(joined(rest) =~= Seq::<u8>::empty());
        assert(joined(frames) =~= f.payload);
        if !tail {
            assert(accept_all(receiver, frames).1 =~= seq![
                MessageView { kind, msgno, ansno, payload: before + joined(frames) },
            ]);
        }
    } else {
        lemma_reassembly(
            sender,
            after,
            kind,
            msgno,
            ansno,
            window::advanced(seqno, f.payload.len() as int),
            rest,
            tail,
            limit,
        );
        window::law_advancing_is_additive(
            seqno,
            f.payload.len() as int,
            joined(rest).len() as int,
        );
    }
}

/// A message survives its fragmentation: whatever frames one channel emits for a message, a peer
/// that expects them, and has advertised room for them, reassembles exactly what was sent. Where
/// the window took all of it that is the message, delivered once and with the last frame; where
/// it did not, it is the part sent so far, held back until the rest comes.
pub proof fn law_emitted_messages_are_reassembled(
    sender: ChannelView,
    receiver: ChannelView,
    kind: FrameKind,
    msgno: u32,
    ansno: Option<u32>,
    payload: Seq<u8>,
    max_frame_size: u32,
)
    requires
        sender.emit(kind, msgno, ansno, payload, max_frame_size) is Ok,
        receiver.expected_seqno == sender.next_seqno,
        receiver.recv_window.accepts(
            sender.next_seqno,
            joined(
                sender.emit(kind, msgno, ansno, payload, max_frame_size)->Ok_0.1.frames,
            ).len() as int,
        ),
        receiver.partial matches Some(p) ==> p.kind == kind && p.msgno == msgno && p.ansno == ansno,
    ensures
        ({
            let (after, e) = sender.emit(kind, msgno, ansno, payload, max_frame_size)->Ok_0;
            let (end, messages, error) = accept_all(receiver, e.frames);
            let before = match receiver.partial {
                Some(p) => p.payload,
                None => Seq::empty(),
            };
            let whole = MessageView { kind, msgno, ansno, payload: before + joined(e.frames) };
            &&& error is None
            &&& end.expected_seqno == after.next_seqno
            &&& if e.remaining.len() > 0 {
                messages.len() == 0 && end.partial == Some(whole)
            } else {
                messages == seq![
                    MessageView { kind, msgno, ansno, payload: before + payload },
                ] && end.partial is None
            }
        }),
{
    let (after, e) = sender.emit(kind, msgno, ansno, payload, max_frame_size)->Ok_0;
    law_emit_fragments(sender, kind, msgno, ansno, payload, max_frame_size);
    lemma_reassembly(
        sender,
        receiver,
        kind,
        msgno,
        ansno,
        sender.next_seqno,
        e.frames,
        e.remaining.len() > 0,
        clamped(max_frame_size),
    );
    if e.remaining.len() == 0 {
        assert(joined(e.frames) + e.remaining =~= joined(e.frames));
    }
}

/// The message number `steps` after `from`.
pub open spec fn number_after(from: u32, steps: int) -> u32 {
    ((from + steps) % (numbers() as int)) as u32
}

proof fn lemma_search_free(taken: Set<u32>, from: u32, tries: nat)
    requires
        from <= MAX_MSG_NO,
        tries <= numbers(),
    ensures
        match search_free(taken, from, tries) {
            (Some(n), next) => n <= MAX_MSG_NO && !taken.contains(n) && next == next_number(n),
            (None, next) => next == number_after(from, tries as int) && forall|k: int|
                0 <= k < tries ==> taken.contains(#[trigger] number_after(from, k)),
        },
    decreases tries,
{
    if tries > 0 && taken.contains(from) {
        let t = (tries - 1) as nat;
        lemma_search_free(taken, next_number(from), t);
        if let (None, _) = search_free(taken, from, tries) {
            assert(number_after(next_number(from), t as int) == number_after(
                from,
                tries as int,
            ));
            assert forall|k: int| 0 <= k < tries implies taken.contains(
                #[trigger] number_after(from, k),
            ) by {
                if k == 0 {
                    assert(number_after(from, 0) == from);
                } else {
                    assert(number_after(next_number(from), k - 1) == number_after(from, k));
                }
            }
        }
    } else if tries == 0 {
        assert(number_after(from, 0) == from);
    }
}

/// A message number in flight is never handed out again before it is released: what allocation
/// gives was free and is taken afterwards, and reserving a taken number is refused. Allocation
/// fails only when every number is taken, and then changes nothing.
pub proof fn law_message_numbers_in_flight_are_unique(c: ChannelView, msgno: u32)
    requires
        c.next_msgno <= MAX_MSG_NO,
    ensures
        match c.allocate() {
            (after, Ok(n)) => {
                &&& n <= MAX_MSG_NO
                &&& !c.outstanding.contains(n)
                &&& after.outstanding == c.outstanding.insert(n)
                &&& after.next_msgno <= MAX_MSG_NO
                &&& after.reserve(n) == (after, Err::<(), Error>(Error::MsgNoInUse { msgno: n }))
            },
            (after, Err(e)) => {
                &&& e == Error::MsgNoExhausted
                &&& after == c
                &&& forall|n: u32| n <= MAX_MSG_NO ==> #[trigger] c.outstanding.contains(n)
            },
        },
        c.outstanding.contains(msgno) && msgno <= MAX_MSG_NO ==> c.reserve(msgno) == (
            c,
            Err::<(), Error>(Error::MsgNoInUse { msgno }),
        ),
{
    lemma_search_free(c.outstanding, c.next_msgno, numbers());
    if let (after, Err(e)) = c.allocate() {
        assert(number_after(c.next_msgno, numbers() as int) == c.next_msgno);
        assert forall|n: u32| n <= MAX_MSG_NO implies #[trigger] c.outstanding.contains(n) by {
            let k = if n >= c.next_msgno {
                n - c.next_msgno
            } else {
                n - c.next_msgno + numbers()
            };
            assert(number_after(c.next_msgno, k) == n);
        }
    }
}

/// A released number can be taken again.
pub proof fn law_released_numbers_are_reusable(c: ChannelView, msgno: u32)
    requires
        msgno <= MAX_MSG_NO,
    ensures
        (ChannelView { outstanding: c.outstanding.remove(msgno), ..c }).reserve(msgno).1 is Ok,
{
}

/// The answers to one message are numbered from zero on, without a gap, and a finished reply
/// starts anew.
pub proof fn law_answers_are_numbered_in_order(c: ChannelView, msgno: u32, other: u32)
    ensures
        c.allocate_ansno(msgno).answer_number(msgno) == window::advanced(
            c.answer_number(msgno),
            1,
        ),
        other != msgno ==> c.allocate_ansno(msgno).answer_number(other) == c.answer_number(other),
        (ChannelView { next_ansno: c.next_ansno.remove(msgno), ..c }).answer_number(msgno) == 0,
{
}

/// A channel opened with a number and a window that a header can carry reopens its window
/// whenever octets are handed on: the frame is over its number, up to the octets handed on, and
/// of its size.
pub proof fn law_opened_channels_reopen_their_window(
    number: u32,
    profile: Seq<char>,
    window_size: u32,
    octets: u32,
)
    requires
        number <= MAX_CHANNEL_NO,
        window_size <= window::MAX_WINDOW_SIZE,
    ensures
        ({
            let c = ChannelView::fresh(number, profile, window_size);
            let after = c.consume(octets);
            &&& c.within_limits()
            &&& after.within_limits()
            &&& after.recv_window.seq_frame(after.number).checked() == Ok::<SeqView, Error>(
                SeqView {
                    channel: number,
                    ackno: window::advanced(0, octets as int),
                    window: window_size,
                },
            )
        }),
{
}

/// Nothing but setting it anew changes the size of the window that a channel advertises, and
/// nothing at all changes its number. So a channel opened within the limits of a header stays within them, and reopens its
/// window whenever octets are handed on, whatever came before.
pub proof fn law_channels_stay_within_limits(
    c: ChannelView,
    incoming: DataView,
    seq: SeqView,
    m: MessageView,
    max_frame_size: u32,
    octets: u32,
)
    requires
        c.within_limits(),
    ensures
        c.accept(incoming).0.within_limits(),
        c.apply_seq(seq).within_limits(),
        c.allocate().0.within_limits(),
        c.reserve(m.msgno).0.within_limits(),
        c.allocate_ansno(m.msgno).within_limits(),
        c.consume(octets).within_limits(),
        c.emit(m.kind, m.msgno, m.ansno, m.payload, max_frame_size) matches Ok((after, _))
            ==> after.within_limits(),
        c.consume(octets).recv_window.seq_frame(c.number).checked() == Ok::<SeqView, Error>(
            SeqView {
                channel: c.number,
                ackno: window::advanced(c.recv_window.base, octets as int),
                window: c.recv_window.size,
            },
        ),
{
    law_emit_fragments(c, m.kind, m.msgno, m.ansno, m.payload, max_frame_size);
}

/// A frame is taken exactly where it begins with the octet expected next, ends within the window
/// that was advertised, and goes on with the message begun before it, if one was. What was
/// expected, and how far the window goes, is said where it does not. Its octets are counted, and
/// its message is given up with its last frame, whole: the payloads of its frames one after the
/// other, under their kind and their numbers. A whole `MSG` awaits its reply from then on.
pub proof fn law_frames_are_taken_in_order(c: ChannelView, f: DataView)
    ensures
        ({
            let len = f.payload.len() as int;
            let (after, r) = c.accept(f);
            let late = f.seqno != c.expected_seqno;
            let outside = (f.seqno - c.recv_window.base) % 0x1_0000_0000 + len
                > c.recv_window.size;
            let other = c.partial matches Some(p) && (p.kind != f.kind || p.msgno != f.msgno
                || p.ansno != f.ansno);
            &&& late ==> after == c && r == Err::<Option<MessageView>, Error>(
                Error::UnexpectedSeqNo { found: f.seqno, expected: c.expected_seqno },
            )
            &&& !late && outside ==> after == c && r == Err::<Option<MessageView>, Error>(
                Error::OutsideWindow {
                    seqno: f.seqno,
                    len: len as u32,
                    limit: ((c.recv_window.base + c.recv_window.size) % 0x1_0000_0000) as u32,
                },
            )
            &&& !late && !outside && other ==> r == Err::<Option<MessageView>, Error>(
                Error::InterleavedFragment,
            )
            &&& !late && !outside && !other ==> {
                let whole = MessageView {
                    kind: f.kind,
                    msgno: f.msgno,
                    ansno: f.ansno,
                    payload: match c.partial {
                        Some(p) => p.payload + f.payload,
                        None => f.payload,
                    },
                };
                &&& r == Ok::<Option<MessageView>, Error>(
                    if f.more {
                        None
                    } else {
                        Some(whole)
                    },
                )
                &&& after.partial == (if f.more {
                    Some(whole)
                } else {
                    None
                })
                &&& after.expected_seqno == (f.seqno + len) % 0x1_0000_0000
                &&& after.awaiting_reply == (if f.kind == FrameKind::Msg && !f.more {
                    c.awaiting_reply.insert(f.msgno)
                } else {
                    c.awaiting_reply
                })
                &&& after == (ChannelView {
                    partial: after.partial,
                    expected_seqno: after.expected_seqno,
                    awaiting_reply: after.awaiting_reply,
                    ..c
                })
            }
        }),
{
}

/// A message is refused exactly where it has an answer number and is no `ANS`, or is one and has
/// none; where there is something of it to send and no room for any of it; and where its numbers
/// fit no header. A refused message takes nothing from the window.
pub proof fn law_messages_are_refused_for_a_reason(
    c: ChannelView,
    m: MessageView,
    max_frame_size: u32,
)
    ensures
        ({
            let r = c.emit(m.kind, m.msgno, m.ansno, m.payload, max_frame_size);
            let misnumbered = (m.kind == FrameKind::Ans) != (m.ansno is Some);
            let stalled = m.payload.len() > 0 && c.writable() == 0;
            let unfit = c.number > 2147483647 || m.msgno > 2147483647 || (m.ansno matches Some(n)
                && n > 2147483647);
            &&& r is Ok <==> !misnumbered && !stalled && !unfit
            &&& misnumbered ==> r is Err && r->Err_0 == (Error::MissingField { field: "ansno" })
            &&& !misnumbered && stalled ==> r is Err && r->Err_0 == Error::ChannelStalled
            &&& !misnumbered && !stalled && unfit ==> r is Err && r->Err_0 is ValueOutOfRange
        }),
{
    reveal(ChannelView::emit);
}

/// The message number that is given out is the next that is free, counting up from where the last
/// search ended and from the largest on to zero, and the next search begins behind it.
pub proof fn law_message_numbers_count_up(c: ChannelView)
    requires
        c.next_msgno <= MAX_MSG_NO,
    ensures
        c.allocate() matches (after, Ok(n)) ==> exists|k: int|
            {
                &&& 0 <= k < 0x8000_0000
                &&& n == (c.next_msgno + k) % 0x8000_0000
                &&& after.next_msgno == (c.next_msgno + k + 1) % 0x8000_0000
                &&& forall|j: int|
                    0 <= j < k ==> c.outstanding.contains(#[trigger] number_after(c.next_msgno, j))
                &&& #[trigger] number_after(c.next_msgno, k) == n
            },
        c.reserve(c.next_msgno).1 is Ok ==> c.reserve(c.next_msgno).0.next_msgno == (c.next_msgno
            + 1) % 0x8000_0000,
{
    if let (after, Ok(n)) = c.allocate() {
        let k = lemma_search_steps(c.outstanding, c.next_msgno, numbers());
        assert(number_after(c.next_msgno, k) == n);
    }
}

proof fn lemma_search_steps(taken: Set<u32>, from: u32, tries: nat) -> (k: int)
    requires
        from <= MAX_MSG_NO,
        tries <= numbers(),
        search_free(taken, from, tries).0 is Some,
    ensures
        0 <= k < tries,
        search_free(taken, from, tries) == (
            Some(number_after(from, k)),
            number_after(from, k + 1),
        ),
        forall|j: int| 0 <= j < k ==> taken.contains(#[trigger] number_after(from, j)),
    decreases tries,
{
    assert(number_after(from, 0) == from);
    assert(number_after(from, 1) == next_number(from));
    if taken.contains(from) {
        let next = next_number(from);
        let k = lemma_search_steps(taken, next, (tries - 1) as nat);
        assert(number_after(next, k) == number_after(from, k + 1));
        assert(number_after(next, k + 1) == number_after(from, k + 2));
        assert forall|j: int| 0 <= j < k + 1 implies taken.contains(
            #[trigger] number_after(from, j),
        ) by {
            if j > 0 {
                assert(number_after(next, j - 1) == number_after(from, j));
            }
        }
        k + 1
    } else {
        0
    }
}

/// Answers to a message are numbered from zero on, up by one and from the largest number on to
/// zero again.
pub proof fn law_answers_count_from_zero(c: ChannelView, msgno: u32)
    ensures
        !c.next_ansno.contains_key(msgno) ==> c.answer_number(msgno) == 0
            && c.allocate_ansno(msgno).answer_number(msgno) == 1,
        c.allocate_ansno(msgno).answer_number(msgno) == (c.answer_number(msgno) + 1)
            % 0x1_0000_0000,
{
}

/// What a peer acknowledges sets the room to write: as many octets as its window has, counted from
/// the octet acknowledged, less those already sent behind it. Nothing else about the channel
/// changes.
pub proof fn law_acknowledgements_set_the_room(c: ChannelView, f: SeqView)
    ensures
        ({
            let after = c.apply_seq(f);
            let sent = (c.next_seqno - f.ackno) % 0x1_0000_0000;
            &&& after.writable() == (if sent >= f.window {
                0
            } else {
                f.window - sent
            })
            &&& after == (ChannelView { send_window: after.send_window, ..c })
        }),
{
}

/// A channel starts with nothing sent or received, nothing in flight, and the same window both
/// ways: as much may be written as is advertised.
pub proof fn law_channels_start_empty(number: u32, profile: Seq<char>, window_size: u32)
    ensures
        ({
            let c = ChannelView::fresh(number, profile, window_size);
            &&& c.number == number
            &&& c.profile == profile
            &&& c.writable() == window_size
            &&& c.next_seqno == 0 && c.expected_seqno == 0 && c.next_msgno == 0
            &&& c.recv_window.accepts(0, window_size as int)
            &&& !c.recv_window.accepts(0, window_size + 1)
            &&& forall|n: u32| !#[trigger] c.outstanding.contains(n)
            &&& forall|n: u32| !#[trigger] c.awaiting_reply.contains(n)
            &&& forall|n: u32| #[trigger] c.answer_number(n) == 0
            &&& c.partial is None
        }),
{
}

/// The largest payload that a frame is given: the limit asked for, but one octet at least and two to
/// the thirty-first less one at most.
pub open spec fn frame_limit(max_frame_size: u32) -> int {
    if max_frame_size == 0 {
        1
    } else if max_frame_size > 2147483647 {
        2147483647
    } else {
        max_frame_size as int
    }
}

/// A message is cut into as few frames as the limit on their size allows: all but the last are of
/// that size, and the last is no larger and not empty, unless the message is. What is left of it is
/// left for want of room alone: then as much has gone as there was room for.
pub proof fn law_frames_are_as_large_as_they_may_be(
    c: ChannelView,
    m: MessageView,
    max_frame_size: u32,
)
    ensures
        c.emit(m.kind, m.msgno, m.ansno, m.payload, max_frame_size) matches Ok((_, e)) ==> {
            let n = e.frames.len();
            let limit = frame_limit(max_frame_size);
            &&& n > 0
            &&& forall|i: int|
                0 <= i < n - 1 ==> (#[trigger] e.frames[i]).payload.len() == limit
            &&& e.frames[n - 1].payload.len() <= limit
            &&& m.payload.len() > 0 ==> e.frames[n - 1].payload.len() > 0
            &&& m.payload.len() == 0 ==> n == 1
            &&& m.payload.len() - e.remaining.len() == (if m.payload.len() <= c.writable() {
                m.payload.len() as int
            } else {
                c.writable() as int
            })
        },
{
    reveal(ChannelView::emit);
    if m.payload.len() > 0 && c.writable() > 0 {
        let cut: int = if m.payload.len() < c.writable() {
            m.payload.len() as int
        } else {
            c.writable() as int
        };
        lemma_fragment_sizes(
            c,
            m,
            c.next_seqno,
            m.payload.take(cut),
            cut < m.payload.len(),
            clamped(max_frame_size),
        );
    }
}

proof fn lemma_fragment_sizes(
    c: ChannelView,
    m: MessageView,
    seqno: u32,
    head: Seq<u8>,
    tail: bool,
    limit: nat,
)
    requires
        head.len() > 0,
        limit > 0,
    ensures
        ({
            let frames = c.fragments(m.kind, m.msgno, m.ansno, seqno, head, tail, limit);
            &&& frames.len() > 0
            &&& forall|i: int|
                0 <= i < frames.len() - 1 ==> (#[trigger] frames[i]).payload.len() == limit
            &&& 0 < frames.last().payload.len() <= limit
        }),
    decreases head.len(),
{
    reveal(ChannelView::fragments);
    if head.len() > limit {
        let next = window::advanced(seqno, limit as int);
        let rest = head.skip(limit as int);
        lemma_fragment_sizes(c, m, next, rest, tail, limit);
        let frames = c.fragments(m.kind, m.msgno, m.ansno, seqno, head, tail, limit);
        let more = c.fragments(m.kind, m.msgno, m.ansno, next, rest, tail, limit);
        assert forall|i: int| 0 <= i < frames.len() - 1 implies (
        #[trigger] frames[i]).payload.len() == limit by {
            if i > 0 {
                assert(frames[i] == more[i - 1]);
            }
        }
        assert(frames.last() == more.last());
    }
}

} // verus!
