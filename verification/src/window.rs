//! Sequence numbers and the sliding window that governs how much may be in flight.
//!
//! BEEP numbers octets, not frames. Each direction of a channel has its own counter, and
//! RFC 3081 makes it a 32 bit value that wraps modulo 2^32. The `SEQ` frame moves the window
//! forward: `SEQ <channel> <ackno> <window>` says "I have consumed everything below `ackno`
//! and will accept `window` octets beyond it".
//!
//! Everything here is modular arithmetic on [`SeqNo`], which is what makes the wrap
//! invisible to callers: there is no "before the wrap" and "after the wrap" case to get
//! wrong, because subtraction is always taken modulo 2^32.

#[allow(unused_imports)]
use crate::codec;
use crate::error::Error;
use crate::frame::{self, SeqFrame, SeqView, MAX_CHANNEL_NO, MAX_FRAME_SIZE};
use vstd::prelude::*;

verus! {

/// The modulus sequence numbers wrap at, 2^32.
pub const SEQ_MODULUS: u64 = 4_294_967_296;

/// The counter value `octets` further on than `from`.
pub open spec fn advanced(from: u32, octets: int) -> u32 {
    ((from + octets) % (SEQ_MODULUS as int)) as u32
}

/// How many octets forward `to` is from `base`.
pub open spec fn distance(to: u32, base: u32) -> u32 {
    ((to - base) % (SEQ_MODULUS as int)) as u32
}

/// A BEEP sequence number: a count of octets that wraps modulo 2^32.
///
/// ```
/// use vortice::window::SeqNo;
///
/// let near_the_end = SeqNo::new(u32::MAX - 3);
/// let wrapped = near_the_end.advance(10);
/// assert_eq!(wrapped, SeqNo::new(6));
/// assert_eq!(wrapped.distance_from(near_the_end), 10);
/// ```
#[derive(Debug, Clone, Copy, PartialEq, Eq, Hash, Default, PartialOrd, Ord)]
pub struct SeqNo(u32);

impl View for SeqNo {
    type V = u32;

    closed spec fn view(&self) -> u32 {
        self.0
    }
}

impl SeqNo {
    /// The sequence number every channel starts from.
    #[must_use]
    pub fn zero() -> (r: SeqNo)
        ensures
            r@ == 0,
    {
        SeqNo(0)
    }

    /// Wraps a raw counter value.
    #[must_use]
    pub fn new(value: u32) -> (r: SeqNo)
        ensures
            r@ == value,
    {
        SeqNo(value)
    }

    /// The raw counter value, as it appears in a frame header.
    #[must_use]
    pub fn get(self) -> (r: u32)
        ensures
            r == self@,
    {
        self.0
    }

    /// The sequence number `octets` further on, wrapping modulo 2^32.
    #[must_use]
    pub fn advance(self, octets: u32) -> (r: SeqNo)
        ensures
            r@ == advanced(self@, octets as int),
    {
        SeqNo(self.0.wrapping_add(octets))
    }

    /// How many octets forward `self` is from `base`, modulo 2^32.
    ///
    /// Because the counter is modular there is no notion of "behind": a sequence number one
    /// octet before `base` is reported as 2^32 - 1 octets ahead of it. Callers decide what
    /// counts as plausible by comparing against a window size.
    #[must_use]
    pub fn distance_from(self, base: SeqNo) -> (r: u32)
        ensures
            r == distance(self@, base@),
    {
        self.0.wrapping_sub(base.0)
    }
}

impl From<u32> for SeqNo {
    fn from(value: u32) -> (r: SeqNo)
        ensures
            r@ == value,
    {
        SeqNo(value)
    }
}

impl vstd::std_specs::convert::FromSpecImpl<u32> for SeqNo {
    open spec fn obeys_from_spec() -> bool {
        true
    }

    closed spec fn from_spec(value: u32) -> SeqNo {
        SeqNo(value)
    }
}

impl From<SeqNo> for u32 {
    fn from(value: SeqNo) -> (r: u32) {
        value.0
    }
}

impl vstd::std_specs::convert::FromSpecImpl<SeqNo> for u32 {
    open spec fn obeys_from_spec() -> bool {
        true
    }

    open spec fn from_spec(value: SeqNo) -> u32 {
        value@
    }
}

/// What a window says: the first octet not yet acknowledged, and how many it spans.
pub struct WindowView {
    pub base: u32,
    pub size: u32,
}

impl WindowView {
    /// The first sequence number beyond the window.
    pub open spec fn limit(self) -> u32 {
        advanced(self.base, self.size as int)
    }

    /// Whether `len` octets starting at `seqno` all lie inside the window.
    pub open spec fn accepts(self, seqno: u32, len: int) -> bool {
        distance(seqno, self.base) + len <= self.size
    }

    /// How many octets from `next` on lie inside the window.
    pub open spec fn remaining(self, next: u32) -> u32 {
        if distance(next, self.base) >= self.size {
            0
        } else {
            (self.size - distance(next, self.base)) as u32
        }
    }

    /// The window moved forward by `octets`.
    pub open spec fn consumed(self, octets: u32) -> WindowView {
        WindowView { base: advanced(self.base, octets as int), size: self.size }
    }

    /// The `SEQ` frame that advertises this window, before its fields are checked.
    pub open spec fn seq_frame(self, channel: u32) -> SeqView {
        SeqView { channel, ackno: self.base, window: self.size }
    }
}

/// One direction of a channel's flow control: what the peer has consumed, and how much more
/// it will take.
///
/// The same type serves both directions. For incoming traffic it holds what this end has
/// consumed and advertised, and [`Window::accepts`] decides whether an arriving frame is
/// within what was offered. For outgoing traffic it holds what the peer last acknowledged
/// in a `SEQ` frame, and [`Window::remaining`] says how much may still be written before
/// the channel stalls.
#[derive(Debug, Clone, Copy, PartialEq, Eq)]
pub struct Window {
    base: SeqNo,
    size: u32,
}

/// Window size a channel starts with.
pub const DEFAULT_WINDOW_SIZE: u32 = 4096;

/// Largest window size that can be advertised in a `SEQ` frame.
pub const MAX_WINDOW_SIZE: u32 = MAX_FRAME_SIZE;

impl View for Window {
    type V = WindowView;

    closed spec fn view(&self) -> WindowView {
        WindowView { base: self.base@, size: self.size }
    }
}

impl Default for Window {
    fn default() -> (r: Window)
        ensures
            r@ == (WindowView { base: 0, size: DEFAULT_WINDOW_SIZE }),
    {
        Window { base: SeqNo::zero(), size: DEFAULT_WINDOW_SIZE }
    }
}

impl Window {
    /// A window of `size` octets starting at `base`.
    #[must_use]
    pub fn new(base: SeqNo, size: u32) -> (r: Window)
        ensures
            r@ == (WindowView { base: base@, size }),
    {
        Window { base, size }
    }

    /// The first octet not yet acknowledged.
    #[must_use]
    pub fn base(&self) -> (r: SeqNo)
        ensures
            r@ == self@.base,
    {
        self.base
    }

    /// How many octets the window spans.
    #[must_use]
    pub fn size(&self) -> (r: u32)
        ensures
            r == self@.size,
    {
        self.size
    }

    /// The first sequence number beyond the window.
    #[must_use]
    pub fn limit(&self) -> (r: SeqNo)
        ensures
            r@ == self@.limit(),
    {
        self.base.advance(self.size)
    }

    /// Whether a frame of `len` octets starting at `seqno` falls entirely inside the window.
    #[must_use]
    pub fn accepts(&self, seqno: SeqNo, len: u32) -> (r: bool)
        ensures
            r == self@.accepts(seqno@, len as int),
    {
        let offset: u64 = seqno.distance_from(self.base) as u64;
        offset + len as u64 <= self.size as u64
    }

    /// How many octets may still be written, given that `next` is the next to be sent.
    ///
    /// Zero means the channel is stalled: nothing more may go out until a `SEQ` frame
    /// advances the window.
    #[must_use]
    pub fn remaining(&self, next: SeqNo) -> (r: u32)
        ensures
            r == self@.remaining(next@),
    {
        self.size.saturating_sub(next.distance_from(self.base))
    }

    /// Whether nothing more may be written before the window moves.
    #[must_use]
    pub fn is_stalled(&self, next: SeqNo) -> (r: bool)
        ensures
            r == (self@.remaining(next@) == 0),
    {
        self.remaining(next) == 0
    }

    /// Applies a received `SEQ` frame.
    #[must_use]
    pub fn updated(self, ackno: SeqNo, size: u32) -> (r: Window)
        ensures
            r@ == (WindowView { base: ackno@, size }),
    {
        Window { base: ackno, size }
    }

    /// Moves the window forward by `octets` without changing its size.
    ///
    /// This is what the receiving side does as it consumes payload and becomes willing to
    /// advertise a fresh window.
    #[must_use]
    pub fn consumed(self, octets: u32) -> (r: Window)
        ensures
            r@ == self@.consumed(octets),
    {
        Window { base: self.base.advance(octets), size: self.size }
    }

    /// Resizes the window in place, keeping its base.
    #[must_use]
    pub fn resized(self, size: u32) -> (r: Window)
        ensures
            r@ == (WindowView { base: self@.base, size }),
    {
        Window { base: self.base, size }
    }

    /// The `SEQ` frame that advertises this window, for the given channel.
    ///
    /// # Errors
    ///
    /// Returns [`Error::ValueOutOfRange`] when the channel number or the window size
    /// exceed what a header may carry.
    pub fn to_seq_frame(&self, channel: u32) -> (r: Result<SeqFrame, Error>)
        ensures
            frame::seq_result(r) == self@.seq_frame(channel).checked(),
    {
        SeqFrame::new(channel, self.base.get(), self.size)
    }
}

/// Advancing then measuring is the identity, at any distance and from any point, and so is
/// measuring then advancing.
pub proof fn law_advance_and_distance_are_inverses(base: u32, n: u32)
    ensures
        distance(advanced(base, n as int), base) == n,
        advanced(base, distance(n, base) as int) == n,
{
}

/// Advancing by a total is the same as advancing in two steps.
pub proof fn law_advancing_is_additive(base: u32, first: int, second: int)
    ensures
        advanced(advanced(base, first), second) == advanced(base, first + second),
{
}

/// A full turn of the counter returns to where it started.
pub proof fn law_full_cycle_is_the_identity(base: u32)
    ensures
        advanced(base, SEQ_MODULUS as int) == base,
        advanced(advanced(base, u32::MAX as int), 1) == base,
{
}

/// Acceptance depends only on the offset into the window, never on where the window happens to
/// sit.
pub proof fn law_acceptance_is_invariant_under_translation(
    w: WindowView,
    seqno: u32,
    len: int,
    shift: u32,
)
    ensures
        w.accepts(seqno, len) == w.consumed(shift).accepts(advanced(seqno, shift as int), len),
{
}

/// A frame is accepted exactly when it ends at or before the window limit.
pub proof fn law_acceptance_matches_the_offset(w: WindowView, offset: u32, len: int)
    ensures
        w.accepts(advanced(w.base, offset as int), len) <==> offset + len <= w.size,
{
}

/// What remains is exactly how much is accepted: no longer run is, and every shorter one is.
pub proof fn law_remaining_agrees_with_acceptance(w: WindowView, next: u32, len: int)
    requires
        len > 0,
    ensures
        w.accepts(next, len) <==> len <= w.remaining(next),
        w.remaining(next) > 0 <==> w.accepts(next, 1),
{
}

/// Writing everything the window allows stalls the channel, and not an octet sooner.
pub proof fn law_window_is_exhausted_exactly_at_its_limit(w: WindowView, octets: u32)
    requires
        octets <= w.size,
    ensures
        w.remaining(w.limit()) == 0,
        w.remaining(advanced(w.base, octets as int)) == w.size - octets,
{
}

/// Consuming payload moves the base and leaves the size alone, so the amount still offered to
/// the peer is restored to the full window.
pub proof fn law_consuming_restores_the_offer(w: WindowView, octets: u32)
    ensures
        w.consumed(octets).size == w.size,
        w.consumed(octets).base == advanced(w.base, octets as int),
        w.consumed(octets).remaining(w.consumed(octets).base) == w.size,
{
}

/// A window survives the header it is advertised with: encoded as a `SEQ` frame and decoded
/// again, it names the same channel, base and size.
pub proof fn law_seq_frames_round_trip(w: WindowView, channel: u32, rest: Seq<u8>)
    requires
        channel <= MAX_CHANNEL_NO,
        w.size <= MAX_WINDOW_SIZE,
    ensures
        w.seq_frame(channel).checked() == Ok::<SeqView, Error>(w.seq_frame(channel)),
        (codec::DecoderView { max_frame_size: MAX_FRAME_SIZE, pending: None }).decode(
            w.seq_frame(channel).wire() + rest,
        ) == Ok::<codec::Decoded, Error>(
            codec::Decoded {
                decoder: codec::DecoderView { max_frame_size: MAX_FRAME_SIZE, pending: None },
                rest,
                frame: Some(
                    frame::FrameView::Flow(
                        SeqView { channel, ackno: w.base, window: w.size },
                    ),
                ),
            },
        ),
{
    codec::law_round_trip(frame::FrameView::Flow(w.seq_frame(channel)), MAX_FRAME_SIZE, rest);
}

/// Sequence numbers count octets modulo two to the thirty-second: past the largest comes zero.
pub proof fn law_sequence_numbers_wrap(from: u32, octets: u32)
    ensures
        from + octets <= 0xffff_ffff ==> advanced(from, octets as int) == from + octets,
        from + octets > 0xffff_ffff ==> advanced(from, octets as int) == from + octets
            - 0x1_0000_0000,
        distance(from, octets) == (if from >= octets {
            from - octets
        } else {
            from - octets + 0x1_0000_0000
        }),
        (WindowView { base: from, size: octets }).limit() == advanced(from, octets as int),
{
}

} // verus!
