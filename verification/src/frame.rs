//! BEEP frames and the limits BEEP places on their header fields.
//!
//! A data frame is
//!
//! ```text
//! KIND channel msgno more seqno size [ansno] CRLF
//! payload
//! END CRLF
//! ```
//!
//! where `ansno` is present for `ANS` frames only, and `more` is `.` for a complete frame
//! or `*` for an intermediate one. A `SEQ` frame (RFC 3081, section 3.1.3) is a header line
//! on its own, with neither payload nor trailer:
//!
//! ```text
//! SEQ channel ackno window CRLF
//! ```

use crate::decimal;
use crate::error::Error;
use crate::octets;
use bytes::{Bytes, BytesMut};
use vstd::prelude::*;
use vstd::string::*;
use vstd::utf8;

verus! {

/// Largest channel number BEEP allows.
pub const MAX_CHANNEL_NO: u32 = 2_147_483_647;

/// Largest message number BEEP allows.
pub const MAX_MSG_NO: u32 = 2_147_483_647;

/// Largest answer number BEEP allows.
pub const MAX_ANS_NO: u32 = 2_147_483_647;

/// Largest payload size a single frame may announce.
pub const MAX_FRAME_SIZE: u32 = 2_147_483_647;

/// Largest sequence number BEEP allows, after which the counter wraps to zero.
///
/// The arithmetic around that wrap lives in [`crate::window`].
pub const MAX_SEQ_NO: u32 = 4_294_967_295;

/// Maximum length of a frame header line, including its terminating `CRLF`.
///
/// A header that has not ended within this many octets is refused.
pub const MAX_HEADER_LEN: usize = 98;

/// The five byte trailer that terminates every data frame: `END`, `CR`, `LF`.
pub const TRAILER: [u8; 5] = [0x45, 0x4e, 0x44, 0x0d, 0x0a];

/// Continuation indicator for a complete frame: `.`.
pub const COMPLETE: u8 = 0x2e;

/// Continuation indicator for an intermediate frame: `*`.
pub const INTERMEDIATE: u8 = 0x2a;

/// The octet between two header fields.
pub const SPACE: u8 = 0x20;

/// Carriage return, the first octet of a line's end.
pub const CR: u8 = 0x0d;

/// Line feed, the second octet of a line's end.
pub const LF: u8 = 0x0a;

/// The kind of a BEEP data frame.
#[derive(Debug, Clone, Copy, PartialEq, Eq, Hash, Structural)]
pub enum FrameKind {
    /// A message starting an exchange.
    Msg,
    /// A positive reply.
    Rpy,
    /// A negative reply.
    Error,
    /// One answer of a one-to-many reply.
    Ans,
    /// The terminator of a one-to-many reply.
    Nul,
}

impl FrameKind {
    /// The three octets that name a kind on the wire.
    pub open spec fn token(self) -> Seq<u8> {
        match self {
            FrameKind::Msg => seq![0x4d, 0x53, 0x47],
            FrameKind::Rpy => seq![0x52, 0x50, 0x59],
            FrameKind::Error => seq![0x45, 0x52, 0x52],
            FrameKind::Ans => seq![0x41, 0x4e, 0x53],
            FrameKind::Nul => seq![0x4e, 0x55, 0x4c],
        }
    }

    /// The kind that a token names, if it names one.
    pub open spec fn of_token(token: Seq<u8>) -> Option<FrameKind> {
        if exists|k: FrameKind| #[trigger] k.token() == token {
            Some(choose|k: FrameKind| #[trigger] k.token() == token)
        } else {
            None
        }
    }

    /// The three character token used on the wire.
    #[must_use]
    pub fn as_str(self) -> (s: &'static str)
        ensures
            s.spec_bytes() == self.token(),
            s@.len() == 3,
    {
        proof {
            reveal_strlit("MSG");
            reveal_strlit("RPY");
            reveal_strlit("ERR");
            reveal_strlit("ANS");
            reveal_strlit("NUL");
        }
        let s = match self {
            FrameKind::Msg => "MSG",
            FrameKind::Rpy => "RPY",
            FrameKind::Error => "ERR",
            FrameKind::Ans => "ANS",
            FrameKind::Nul => "NUL",
        };
        assert(is_ascii(s));
        assert(s.spec_bytes() =~= self.token());
        s
    }

    /// Parses a three byte wire token, returning `None` if it is not a data frame kind.
    #[must_use]
    pub fn from_token(token: &[u8]) -> (kind: Option<FrameKind>)
        ensures
            kind == FrameKind::of_token(token@),
            kind is None ==> forall|k: FrameKind| #[trigger] k.token() != token@,
            kind matches Some(k) ==> k.token() == token@,
    {
        proof {
            FrameKind::lemma_tokens_differ();
        }
        if token.len() != 3 {
            return None;
        }
        let (a, b, c) = (token[0], token[1], token[2]);
        let kind = if a == 0x4d && b == 0x53 && c == 0x47 {
            Some(FrameKind::Msg)
        } else if a == 0x52 && b == 0x50 && c == 0x59 {
            Some(FrameKind::Rpy)
        } else if a == 0x45 && b == 0x52 && c == 0x52 {
            Some(FrameKind::Error)
        } else if a == 0x41 && b == 0x4e && c == 0x53 {
            Some(FrameKind::Ans)
        } else if a == 0x4e && b == 0x55 && c == 0x4c {
            Some(FrameKind::Nul)
        } else {
            None
        };
        proof {
            match kind {
                Some(k) => {
                    assert(k.token() =~= token@);
                },
                None => {
                    assert forall|k: FrameKind| #[trigger] k.token() != token@ by {
                        assert(k.token()[0] != a || k.token()[1] != b || k.token()[2] != c);
                    }
                },
            }
        }
        kind
    }

    /// Whether this kind carries an `ansno` field in its header.
    #[must_use]
    pub fn has_ansno(self) -> (r: bool)
        ensures
            r == (self == FrameKind::Ans),
    {
        match self {
            FrameKind::Ans => true,
            _ => false,
        }
    }

    /// No two kinds share a token.
    pub proof fn lemma_tokens_differ()
        ensures
            forall|k: FrameKind, l: FrameKind| #[trigger]
                k.token() == #[trigger] l.token() ==> k == l,
            forall|k: FrameKind| #[trigger] FrameKind::of_token(k.token()) == Some(k),
    {
        assert forall|k: FrameKind, l: FrameKind| #[trigger] k.token() == #[trigger] l.token()
            implies k == l by {
            assert(k.token()[0] == l.token()[0]);
            assert(k.token()[1] == l.token()[1]);
            assert(k.token()[2] == l.token()[2]);
        }
    }
}

/// What a data frame says.
#[verifier::ext_equal]
pub struct DataView {
    pub kind: FrameKind,
    pub channel: u32,
    pub msgno: u32,
    pub more: bool,
    pub seqno: u32,
    pub ansno: Option<u32>,
    pub payload: Seq<u8>,
}

impl DataView {
    /// Whether every field is in the range BEEP allows for it, and an answer number is there
    /// exactly when the kind calls for one.
    pub open spec fn valid(self) -> bool {
        &&& self.channel <= MAX_CHANNEL_NO
        &&& self.msgno <= MAX_MSG_NO
        &&& self.payload.len() <= MAX_FRAME_SIZE
        &&& self.ansno is Some <==> self.kind == FrameKind::Ans
        &&& self.ansno matches Some(n) ==> n <= MAX_ANS_NO
    }

    /// The header fields up to and including the size.
    pub open spec fn fields(self) -> Seq<u8> {
        self.kind.token() + seq![SPACE] + decimal::decimal(self.channel as nat) + seq![SPACE]
            + decimal::decimal(self.msgno as nat) + seq![SPACE] + seq![
            if self.more {
                INTERMEDIATE
            } else {
                COMPLETE
            },
        ] + seq![SPACE] + decimal::decimal(self.seqno as nat) + seq![SPACE] + decimal::decimal(
            self.payload.len(),
        )
    }

    /// The header line, without its line end.
    pub open spec fn header(self) -> Seq<u8> {
        match self.ansno {
            Some(n) => self.fields() + seq![SPACE] + decimal::decimal(n as nat),
            None => self.fields(),
        }
    }

    /// The octets that carry the frame.
    pub open spec fn wire(self) -> Seq<u8> {
        self.header() + seq![CR, LF] + self.payload + TRAILER@
    }

    /// What building a complete frame from these fields gives.
    pub open spec fn checked(self) -> Result<DataView, Error> {
        if self.channel > MAX_CHANNEL_NO {
            Err(Error::ValueOutOfRange { field: "channel", max: MAX_CHANNEL_NO })
        } else if self.msgno > MAX_MSG_NO {
            Err(Error::ValueOutOfRange { field: "msgno", max: MAX_MSG_NO })
        } else if self.ansno is Some && self.ansno->0 > MAX_ANS_NO {
            Err(Error::ValueOutOfRange { field: "ansno", max: MAX_ANS_NO })
        } else if self.payload.len() > u32::MAX {
            Err(Error::FrameTooLarge { size: MAX_FRAME_SIZE, limit: MAX_FRAME_SIZE })
        } else if self.payload.len() > MAX_FRAME_SIZE {
            Err(Error::FrameTooLarge { size: self.payload.len() as u32, limit: MAX_FRAME_SIZE })
        } else {
            Ok(self)
        }
    }
}

/// A BEEP data frame: `MSG`, `RPY`, `ERR`, `ANS` or `NUL`.
///
/// The payload is carried opaquely. MIME structure inside it is the concern of
/// [`crate::mime`] and of the layers above, not of framing.
#[derive(Debug, PartialEq, Eq)]
pub struct DataFrame {
    kind: FrameKind,
    channel: u32,
    msgno: u32,
    more: bool,
    seqno: u32,
    ansno: Option<u32>,
    payload: Bytes,
}

impl View for DataFrame {
    type V = DataView;

    closed spec fn view(&self) -> DataView {
        DataView {
            kind: self.kind,
            channel: self.channel,
            msgno: self.msgno,
            more: self.more,
            seqno: self.seqno,
            ansno: self.ansno,
            payload: octets::octets(self.payload),
        }
    }
}

impl Clone for DataFrame {
    fn clone(&self) -> (r: DataFrame)
        ensures
            r@ == self@,
    {
        proof {
            use_type_invariant(self);
        }
        DataFrame {
            kind: self.kind,
            channel: self.channel,
            msgno: self.msgno,
            more: self.more,
            seqno: self.seqno,
            ansno: self.ansno,
            payload: self.payload.clone(),
        }
    }
}

/// The value of a built frame, as a view.
pub open spec fn data_result(r: Result<DataFrame, Error>) -> Result<DataView, Error> {
    match r {
        Ok(f) => Ok(f@),
        Err(e) => Err(e),
    }
}

impl DataFrame {
    #[verifier::type_invariant]
    spec fn well_formed(self) -> bool {
        self@.valid()
    }

    /// Builds a complete (`more` unset) frame of a kind that carries no `ansno`.
    ///
    /// # Errors
    ///
    /// Returns [`Error::MissingField`] when `kind` is [`FrameKind::Ans`], which requires an
    /// answer number and must be built with [`DataFrame::new_ans`]. Returns
    /// [`Error::ValueOutOfRange`] when a field exceeds the range BEEP allows, and
    /// [`Error::FrameTooLarge`] when the payload exceeds [`MAX_FRAME_SIZE`].
    pub fn new(kind: FrameKind, channel: u32, msgno: u32, seqno: u32, payload: Bytes) -> (r: Result<
        DataFrame,
        Error,
    >)
        ensures
            data_result(r) == (if kind == FrameKind::Ans {
                Err(Error::MissingField { field: "ansno" })
            } else {
                (DataView {
                    kind,
                    channel,
                    msgno,
                    more: false,
                    seqno,
                    ansno: None,
                    payload: octets::octets(payload),
                }).checked()
            }),
    {
        if kind.has_ansno() {
            return Err(Error::MissingField { field: "ansno" });
        }
        DataFrame::build(kind, channel, msgno, seqno, None, payload)
    }

    /// Builds a complete (`more` unset) `ANS` frame.
    ///
    /// # Errors
    ///
    /// As [`DataFrame::new`], plus [`Error::ValueOutOfRange`] when `ansno` exceeds
    /// [`MAX_ANS_NO`].
    pub fn new_ans(channel: u32, msgno: u32, seqno: u32, ansno: u32, payload: Bytes) -> (r: Result<
        DataFrame,
        Error,
    >)
        ensures
            data_result(r) == (DataView {
                kind: FrameKind::Ans,
                channel,
                msgno,
                more: false,
                seqno,
                ansno: Some(ansno),
                payload: octets::octets(payload),
            }).checked(),
    {
        DataFrame::build(FrameKind::Ans, channel, msgno, seqno, Some(ansno), payload)
    }

    fn build(
        kind: FrameKind,
        channel: u32,
        msgno: u32,
        seqno: u32,
        ansno: Option<u32>,
        payload: Bytes,
    ) -> (r: Result<DataFrame, Error>)
        requires
            ansno is Some <==> kind == FrameKind::Ans,
        ensures
            data_result(r) == (DataView {
                kind,
                channel,
                msgno,
                more: false,
                seqno,
                ansno,
                payload: octets::octets(payload),
            }).checked(),
    {
        check_range("channel", channel, MAX_CHANNEL_NO)?;
        check_range("msgno", msgno, MAX_MSG_NO)?;
        if let Some(ansno) = ansno {
            check_range("ansno", ansno, MAX_ANS_NO)?;
        }
        let len: usize = payload.len();
        if len as u64 > u32::MAX as u64 {
            return Err(Error::FrameTooLarge { size: MAX_FRAME_SIZE, limit: MAX_FRAME_SIZE });
        }
        let size: u32 = len as u32;
        if size > MAX_FRAME_SIZE {
            return Err(Error::FrameTooLarge { size, limit: MAX_FRAME_SIZE });
        }
        Ok(DataFrame { kind, channel, msgno, more: false, seqno, ansno, payload })
    }

    /// Marks the frame as intermediate (`*`) or complete (`.`).
    #[must_use]
    pub fn with_more(self, more: bool) -> (r: DataFrame)
        ensures
            r@ == (DataView { more, ..self@ }),
    {
        proof {
            use_type_invariant(&self);
        }
        DataFrame {
            kind: self.kind,
            channel: self.channel,
            msgno: self.msgno,
            more,
            seqno: self.seqno,
            ansno: self.ansno,
            payload: self.payload,
        }
    }

    /// The frame kind.
    #[must_use]
    pub fn kind(&self) -> (r: FrameKind)
        ensures
            r == self@.kind,
    {
        self.kind
    }

    /// The channel this frame belongs to.
    #[must_use]
    pub fn channel(&self) -> (r: u32)
        ensures
            r == self@.channel,
            r <= MAX_CHANNEL_NO,
    {
        proof {
            use_type_invariant(self);
        }
        self.channel
    }

    /// The message number.
    #[must_use]
    pub fn msgno(&self) -> (r: u32)
        ensures
            r == self@.msgno,
            r <= MAX_MSG_NO,
    {
        proof {
            use_type_invariant(self);
        }
        self.msgno
    }

    /// Whether more frames follow for this message.
    #[must_use]
    pub fn more(&self) -> (r: bool)
        ensures
            r == self@.more,
    {
        self.more
    }

    /// The sequence number of the first payload octet.
    #[must_use]
    pub fn seqno(&self) -> (r: u32)
        ensures
            r == self@.seqno,
    {
        self.seqno
    }

    /// The answer number, present for [`FrameKind::Ans`] only.
    #[must_use]
    pub fn ansno(&self) -> (r: Option<u32>)
        ensures
            r == self@.ansno,
            r is Some <==> self@.kind == FrameKind::Ans,
    {
        proof {
            use_type_invariant(self);
        }
        self.ansno
    }

    /// The payload octets.
    #[must_use]
    pub fn payload(&self) -> (r: &[u8])
        ensures
            r@ == self@.payload,
    {
        octets::bytes_slice(&self.payload)
    }

    /// Takes ownership of the payload.
    #[must_use]
    pub fn into_payload(self) -> (r: Bytes)
        ensures
            octets::octets(r) == self@.payload,
    {
        self.payload
    }

    /// A handle to the payload sharing the same allocation.
    #[must_use]
    pub fn payload_bytes(&self) -> (r: Bytes)
        ensures
            octets::octets(r) == self@.payload,
    {
        self.payload.clone()
    }

    /// The `size` announced in the header, i.e. the payload length.
    #[must_use]
    pub fn size(&self) -> (r: u32)
        ensures
            r == self@.payload.len(),
    {
        proof {
            use_type_invariant(self);
        }
        self.payload.len() as u32
    }

    /// Number of octets [`DataFrame::encode`] will append.
    #[must_use]
    pub fn encoded_len(&self) -> (n: usize)
        ensures
            n == self@.wire().len(),
    {
        proof {
            use_type_invariant(self);
            decimal::lemma_decimal_len_u32(self.channel);
            decimal::lemma_decimal_len_u32(self.msgno);
            decimal::lemma_decimal_len_u32(self.seqno);
            decimal::lemma_decimal_len_u32(self@.payload.len() as u32);
        }
        let mut len: usize = 3 + 1 + decimal::digits(self.channel) + 1 + decimal::digits(self.msgno)
            + 1 + 1 + 1 + decimal::digits(self.seqno) + 1 + decimal::digits(self.size());
        if let Some(ansno) = self.ansno {
            proof {
                decimal::lemma_decimal_len_u32(ansno);
            }
            len += 1 + decimal::digits(ansno);
        }
        len + 2 + self.payload.len() + TRAILER.len()
    }

    /// Appends the wire representation of this frame to `dst`.
    pub fn encode(&self, dst: &mut BytesMut)
        ensures
            octets::buffered(*final(dst)) == octets::buffered(*old(dst)) + self@.wire(),
    {
        let ghost before = octets::buffered(*dst);
        dst.extend_from_slice(self.kind.as_str().as_bytes());
        octets::put_u8(dst, SPACE);
        decimal::put_u32(dst, self.channel);
        octets::put_u8(dst, SPACE);
        decimal::put_u32(dst, self.msgno);
        octets::put_u8(dst, SPACE);
        octets::put_u8(
            dst,
            if self.more {
                INTERMEDIATE
            } else {
                COMPLETE
            },
        );
        octets::put_u8(dst, SPACE);
        decimal::put_u32(dst, self.seqno);
        octets::put_u8(dst, SPACE);
        decimal::put_u32(dst, self.size());
        assert(octets::buffered(*dst) =~= before + self@.fields());
        if let Some(ansno) = self.ansno {
            octets::put_u8(dst, SPACE);
            decimal::put_u32(dst, ansno);
        }
        assert(octets::buffered(*dst) =~= before + self@.header());
        octets::put_u8(dst, CR);
        octets::put_u8(dst, LF);
        dst.extend_from_slice(octets::bytes_slice(&self.payload));
        dst.extend_from_slice(TRAILER.as_slice());
        assert(octets::buffered(*dst) =~= before + self@.wire());
    }
}

/// What a `SEQ` frame says.
#[verifier::ext_equal]
pub struct SeqView {
    pub channel: u32,
    pub ackno: u32,
    pub window: u32,
}

impl SeqView {
    /// Whether every field is in the range BEEP allows for it.
    pub open spec fn valid(self) -> bool {
        self.channel <= MAX_CHANNEL_NO && self.window <= MAX_FRAME_SIZE
    }

    /// The token that names a `SEQ` frame on the wire.
    pub open spec fn token() -> Seq<u8> {
        seq![0x53, 0x45, 0x51]
    }

    /// The header line, without its line end.
    pub open spec fn header(self) -> Seq<u8> {
        SeqView::token() + seq![SPACE] + decimal::decimal(self.channel as nat) + seq![SPACE]
            + decimal::decimal(self.ackno as nat) + seq![SPACE] + decimal::decimal(
            self.window as nat,
        )
    }

    /// The octets that carry the frame.
    pub open spec fn wire(self) -> Seq<u8> {
        self.header() + seq![CR, LF]
    }

    /// What building a frame from these fields gives.
    pub open spec fn checked(self) -> Result<SeqView, Error> {
        if self.channel > MAX_CHANNEL_NO {
            Err(Error::ValueOutOfRange { field: "channel", max: MAX_CHANNEL_NO })
        } else if self.window > MAX_FRAME_SIZE {
            Err(Error::ValueOutOfRange { field: "window", max: MAX_FRAME_SIZE })
        } else {
            Ok(self)
        }
    }
}

/// A `SEQ` frame, the flow control primitive of RFC 3081.
#[derive(Debug, Clone, Copy, PartialEq, Eq)]
pub struct SeqFrame {
    channel: u32,
    ackno: u32,
    window: u32,
}

impl View for SeqFrame {
    type V = SeqView;

    closed spec fn view(&self) -> SeqView {
        SeqView { channel: self.channel, ackno: self.ackno, window: self.window }
    }
}

/// The value of a built frame, as a view.
pub open spec fn seq_result(r: Result<SeqFrame, Error>) -> Result<SeqView, Error> {
    match r {
        Ok(f) => Ok(f@),
        Err(e) => Err(e),
    }
}

impl SeqFrame {
    #[verifier::type_invariant]
    spec fn well_formed(self) -> bool {
        self@.valid()
    }

    /// Builds a `SEQ` frame acknowledging `ackno` and advertising `window` octets.
    ///
    /// # Errors
    ///
    /// Returns [`Error::ValueOutOfRange`] when `channel` or `window` exceed their limits.
    pub fn new(channel: u32, ackno: u32, window: u32) -> (r: Result<SeqFrame, Error>)
        ensures
            seq_result(r) == (SeqView { channel, ackno, window }).checked(),
    {
        check_range("channel", channel, MAX_CHANNEL_NO)?;
        check_range("window", window, MAX_FRAME_SIZE)?;
        Ok(SeqFrame { channel, ackno, window })
    }

    /// The channel this frame refers to.
    #[must_use]
    pub fn channel(&self) -> (r: u32)
        ensures
            r == self@.channel,
    {
        self.channel
    }

    /// The sequence number of the next octet expected.
    #[must_use]
    pub fn ackno(&self) -> (r: u32)
        ensures
            r == self@.ackno,
    {
        self.ackno
    }

    /// How many octets beyond `ackno` the peer may send.
    #[must_use]
    pub fn window(&self) -> (r: u32)
        ensures
            r == self@.window,
            r <= MAX_FRAME_SIZE,
    {
        proof {
            use_type_invariant(self);
        }
        self.window
    }

    /// Number of octets [`SeqFrame::encode`] will append.
    #[must_use]
    pub fn encoded_len(&self) -> (n: usize)
        ensures
            n == self@.wire().len(),
    {
        proof {
            decimal::lemma_decimal_len_u32(self.channel);
            decimal::lemma_decimal_len_u32(self.ackno);
            decimal::lemma_decimal_len_u32(self.window);
        }
        3 + 1 + decimal::digits(self.channel) + 1 + decimal::digits(self.ackno) + 1
            + decimal::digits(self.window) + 2
    }

    /// Appends the wire representation of this frame to `dst`.
    pub fn encode(&self, dst: &mut BytesMut)
        ensures
            octets::buffered(*final(dst)) == octets::buffered(*old(dst)) + self@.wire(),
    {
        let ghost before = octets::buffered(*dst);
        let token: [u8; 3] = [0x53, 0x45, 0x51];
        dst.extend_from_slice(token.as_slice());
        octets::put_u8(dst, SPACE);
        decimal::put_u32(dst, self.channel);
        octets::put_u8(dst, SPACE);
        decimal::put_u32(dst, self.ackno);
        octets::put_u8(dst, SPACE);
        decimal::put_u32(dst, self.window);
        octets::put_u8(dst, CR);
        octets::put_u8(dst, LF);
        assert(token@ =~= SeqView::token());
        assert(octets::buffered(*dst) =~= before + self@.wire());
    }
}

/// What a frame of either sort says.
pub enum FrameView {
    Data(DataView),
    Flow(SeqView),
}

impl FrameView {
    /// Whether every field is in the range BEEP allows for it.
    pub open spec fn valid(self) -> bool {
        match self {
            FrameView::Data(f) => f.valid(),
            FrameView::Flow(f) => f.valid(),
        }
    }

    /// The octets that carry the frame.
    pub open spec fn wire(self) -> Seq<u8> {
        match self {
            FrameView::Data(f) => f.wire(),
            FrameView::Flow(f) => f.wire(),
        }
    }

    /// The channel the frame refers to.
    pub open spec fn channel(self) -> u32 {
        match self {
            FrameView::Data(f) => f.channel,
            FrameView::Flow(f) => f.channel,
        }
    }
}

/// Any BEEP frame.
#[derive(Debug, PartialEq, Eq)]
pub enum Frame {
    /// A data frame.
    Data(DataFrame),
    /// A flow control frame.
    Flow(SeqFrame),
}

impl View for Frame {
    type V = FrameView;

    open spec fn view(&self) -> FrameView {
        match self {
            Frame::Data(f) => FrameView::Data(f@),
            Frame::Flow(f) => FrameView::Flow(f@),
        }
    }
}

impl Clone for Frame {
    fn clone(&self) -> (r: Frame)
        ensures
            r@ == self@,
    {
        match self {
            Frame::Data(f) => Frame::Data(f.clone()),
            Frame::Flow(f) => Frame::Flow(*f),
        }
    }
}

impl Frame {
    /// The channel the frame refers to.
    #[must_use]
    pub fn channel(&self) -> (r: u32)
        ensures
            r == self@.channel(),
    {
        match self {
            Frame::Data(f) => f.channel(),
            Frame::Flow(f) => f.channel(),
        }
    }

    /// Borrows the frame as a data frame, or `None` if it is a `SEQ` frame.
    #[must_use]
    pub fn as_data(&self) -> (r: Option<&DataFrame>)
        ensures
            match r {
                Some(f) => self@ == FrameView::Data(f@),
                None => self@ is Flow,
            },
    {
        match self {
            Frame::Data(f) => Some(f),
            Frame::Flow(_) => None,
        }
    }

    /// Borrows the frame as a `SEQ` frame, or `None` if it is a data frame.
    #[must_use]
    pub fn as_seq(&self) -> (r: Option<&SeqFrame>)
        ensures
            match r {
                Some(f) => self@ == FrameView::Flow(f@),
                None => self@ is Data,
            },
    {
        match self {
            Frame::Flow(f) => Some(f),
            Frame::Data(_) => None,
        }
    }

    /// Number of octets [`Frame::encode`] will append.
    #[must_use]
    pub fn encoded_len(&self) -> (n: usize)
        ensures
            n == self@.wire().len(),
    {
        match self {
            Frame::Data(f) => f.encoded_len(),
            Frame::Flow(f) => f.encoded_len(),
        }
    }

    /// Appends the wire representation of this frame to `dst`.
    pub fn encode(&self, dst: &mut BytesMut)
        ensures
            octets::buffered(*final(dst)) == octets::buffered(*old(dst)) + self@.wire(),
    {
        match self {
            Frame::Data(f) => f.encode(dst),
            Frame::Flow(f) => f.encode(dst),
        }
    }
}

impl From<DataFrame> for Frame {
    fn from(f: DataFrame) -> (r: Frame) {
        Frame::Data(f)
    }
}

impl vstd::std_specs::convert::FromSpecImpl<DataFrame> for Frame {
    open spec fn obeys_from_spec() -> bool {
        true
    }

    open spec fn from_spec(f: DataFrame) -> Frame {
        Frame::Data(f)
    }
}

impl From<SeqFrame> for Frame {
    fn from(f: SeqFrame) -> (r: Frame) {
        Frame::Flow(f)
    }
}

impl vstd::std_specs::convert::FromSpecImpl<SeqFrame> for Frame {
    open spec fn obeys_from_spec() -> bool {
        true
    }

    open spec fn from_spec(f: SeqFrame) -> Frame {
        Frame::Flow(f)
    }
}

fn check_range(field: &'static str, value: u32, max: u32) -> (r: Result<(), Error>)
    ensures
        r == (if value > max {
            Err(Error::ValueOutOfRange { field, max })
        } else {
            Ok(())
        }),
{
    if value > max {
        return Err(Error::ValueOutOfRange { field, max });
    }
    Ok(())
}

/// A frame is built from its fields as they are, where each fits its place in a header: the numbers
/// are two to the thirty-first less one at most, and so is the size of the payload. The first that
/// does not is named, with its limit.
pub proof fn law_frames_hold_what_a_header_can(f: DataView, seq: SeqView)
    ensures
        ({
            let max = 2147483647u32;
            let named = |field: &'static str| Error::ValueOutOfRange { field, max };
            let large = f.payload.len() > max;
            let answer = f.ansno matches Some(n) && n > max;
            &&& f.checked() is Ok <==> f.channel <= max && f.msgno <= max && !answer && !large
            &&& f.checked() is Ok ==> f.checked()->Ok_0 == f
            &&& f.channel > max ==> f.checked() == Err::<DataView, Error>(named("channel"))
            &&& f.channel <= max && f.msgno > max ==> f.checked() == Err::<DataView, Error>(
                named("msgno"),
            )
            &&& f.channel <= max && f.msgno <= max && answer ==> f.checked() == Err::<
                DataView,
                Error,
            >(named("ansno"))
            &&& f.channel <= max && f.msgno <= max && !answer && large ==> f.checked() is Err
                && f.checked()->Err_0 is FrameTooLarge
            &&& seq.checked() is Ok <==> seq.channel <= max && seq.window <= max
            &&& seq.checked() is Ok ==> seq.checked()->Ok_0 == seq
            &&& seq.channel > max ==> seq.checked() == Err::<SeqView, Error>(named("channel"))
            &&& seq.channel <= max && seq.window > max ==> seq.checked() == Err::<SeqView, Error>(
                named("window"),
            )
            &&& f.valid() <==> f.checked() is Ok && (f.ansno is Some <==> f.kind == FrameKind::Ans)
            &&& seq.valid() <==> seq.checked() is Ok
        }),
{
}

} // verus!
