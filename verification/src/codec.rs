//! Incremental decoding of BEEP frames from a byte buffer.
//!
//! [`Decoder`] is fed whatever octets have arrived and yields whole frames as they become
//! available. It never blocks, never copies a payload (payloads are split out of the input
//! [`BytesMut`], so they share its allocation) and keeps no reference to the transport.
//!
//! # Strictness
//!
//! Numeric fields hold digits and nothing else, none may be empty, a single space follows the
//! three character frame type, nothing may follow the last field, and the header line ends in
//! `CRLF`.

use crate::decimal;
use crate::error::Error;
use crate::frame::{
    DataFrame, DataView, Frame, FrameKind, FrameView, SeqFrame, SeqView, COMPLETE, CR,
    INTERMEDIATE, LF, MAX_ANS_NO, MAX_CHANNEL_NO, MAX_FRAME_SIZE, MAX_HEADER_LEN, MAX_MSG_NO,
    MAX_SEQ_NO, SPACE, TRAILER,
};
use crate::octets;
use bytes::BytesMut;
use vstd::prelude::*;

pub mod grammar;

verus! {

/// A parsed data frame header, still waiting for its payload and trailer.
#[derive(Debug, Clone, Copy)]
pub struct DataHeader {
    pub kind: FrameKind,
    pub channel: u32,
    pub msgno: u32,
    pub more: bool,
    pub seqno: u32,
    pub size: u32,
    pub ansno: Option<u32>,
}

impl DataHeader {
    /// Whether every field is in the range BEEP allows for it, and an answer number is there
    /// exactly when the kind calls for one.
    pub open spec fn valid(self) -> bool {
        &&& self.channel <= MAX_CHANNEL_NO
        &&& self.msgno <= MAX_MSG_NO
        &&& self.size <= MAX_FRAME_SIZE
        &&& self.ansno is Some <==> self.kind == FrameKind::Ans
        &&& self.ansno matches Some(n) ==> n <= MAX_ANS_NO
    }

    /// The frame that this header and a payload make.
    pub open spec fn with_payload(self, payload: Seq<u8>) -> DataView {
        DataView {
            kind: self.kind,
            channel: self.channel,
            msgno: self.msgno,
            more: self.more,
            seqno: self.seqno,
            ansno: self.ansno,
            payload,
        }
    }
}

/// What one header line says.
pub enum Header {
    Data(DataHeader),
    Flow(SeqView),
}

/// The index of the first `needle`, or the length where there is none.
pub open spec fn position(s: Seq<u8>, needle: u8) -> int
    decreases s.len(),
{
    if s.len() == 0 || s[0] == needle {
        0
    } else {
        1 + position(s.drop_first(), needle)
    }
}

/// A place with the needle in it, and none before it, is the position.
pub proof fn lemma_position(s: Seq<u8>, needle: u8)
    ensures
        0 <= position(s, needle) <= s.len(),
        position(s, needle) < s.len() ==> s[position(s, needle)] == needle,
        forall|i: int| 0 <= i < position(s, needle) ==> s[i] != needle,
        forall|i: int|
            0 <= i <= s.len() && (forall|j: int| 0 <= j < i ==> s[j] != needle) && (i == s.len()
                || s[i] == needle) ==> #[trigger] same_place(i) == position(s, needle),
    decreases s.len(),
{
    if s.len() > 0 && s[0] != needle {
        let t = s.drop_first();
        lemma_position(t, needle);
        assert forall|i: int| 0 <= i < position(s, needle) implies s[i] != needle by {
            if i > 0 {
                assert(t[i - 1] == s[i]);
            }
        }
        assert forall|i: int|
            0 <= i <= s.len() && (forall|j: int| 0 <= j < i ==> s[j] != needle) && (i == s.len()
                || s[i] == needle) implies #[trigger] same_place(i) == position(s, needle) by {
            assert(i > 0);
            assert forall|j: int| 0 <= j < i - 1 implies t[j] != needle by {
                assert(t[j] == s[j + 1]);
            }
            assert(i - 1 == t.len() || t[i - 1] == needle);
            assert(same_place(i - 1) == position(t, needle));
        }
    }
}

/// A name for an index, to speak of it by.
pub open spec fn same_place(i: int) -> int {
    i
}

/// The index of the first `needle`, if there is one.
pub fn find(haystack: &[u8], needle: u8) -> (r: Option<usize>)
    ensures
        match r {
            Some(i) => i == position(haystack@, needle) && i < haystack@.len(),
            None => position(haystack@, needle) == haystack@.len(),
        },
{
    let mut i: usize = 0;
    proof {
        lemma_position(haystack@, needle);
    }
    while i < haystack.len()
        invariant
            i <= haystack@.len(),
            forall|j: int| 0 <= j < i ==> haystack@[j] != needle,
            forall|k: int|
                0 <= k <= haystack@.len() && (forall|j: int|
                    0 <= j < k ==> haystack@[j] != needle) && (k == haystack@.len()
                    || haystack@[k] == needle) ==> #[trigger] same_place(k) == position(
                    haystack@,
                    needle,
                ),
        decreases haystack@.len() - i,
    {
        if haystack[i] == needle {
            assert(same_place(i as int) == position(haystack@, needle));
            return Some(i);
        }
        i += 1;
    }
    assert(same_place(i as int) == position(haystack@, needle));
    None
}

/// The value of the next space-separated field, which may be neither absent nor empty.
pub open spec fn field(rest: Option<Seq<u8>>, name: &'static str) -> Result<Seq<u8>, Error> {
    match rest {
        None => Err(Error::MissingField { field: name }),
        Some(s) => if position(s, SPACE) == 0 {
            Err(Error::MissingField { field: name })
        } else {
            Ok(s.take(position(s, SPACE)))
        },
    }
}

/// What is left of the line after its next field: nothing once the last has been taken.
pub open spec fn after_field(rest: Option<Seq<u8>>) -> Option<Seq<u8>> {
    match rest {
        None => None,
        Some(s) => if position(s, SPACE) < s.len() {
            Some(s.skip(position(s, SPACE) + 1))
        } else {
            None
        },
    }
}

/// The number a field of decimal digits writes, read from the left: the first octet that is no
/// digit, or that takes the value past `max`, decides the error.
pub open spec fn number(s: Seq<u8>, name: &'static str, max: u32) -> Result<nat, Error>
    decreases s.len(),
{
    if s.len() == 0 {
        Ok(0)
    } else {
        match number(s.drop_last(), name, max) {
            Err(e) => Err(e),
            Ok(n) => if !decimal::is_digit(s.last()) {
                Err(Error::InvalidDigit { field: name })
            } else if n * 10 + (s.last() - 0x30) > max {
                Err(Error::ValueOutOfRange { field: name, max })
            } else {
                Ok(n * 10 + (s.last() - 0x30) as nat)
            },
        }
    }
}

/// The next field, read as a number.
pub open spec fn numeric(rest: Option<Seq<u8>>, name: &'static str, max: u32) -> Result<
    u32,
    Error,
> {
    match field(rest, name) {
        Err(e) => Err(e),
        Ok(s) => match number(s, name, max) {
            Err(e) => Err(e),
            Ok(n) => Ok(n as u32),
        },
    }
}

/// What a continuation indicator says.
pub open spec fn continuation(s: Seq<u8>) -> Result<bool, Error> {
    if s.len() != 1 {
        Err(
            Error::MalformedHeader {
                reason: "continuation indicator must be a single character",
            },
        )
    } else if s[0] == COMPLETE {
        Ok(false)
    } else if s[0] == INTERMEDIATE {
        Ok(true)
    } else {
        Err(Error::InvalidContinuation { found: s[0] })
    }
}

/// The next field, read as a continuation indicator.
pub open spec fn continuation_field(rest: Option<Seq<u8>>) -> Result<bool, Error> {
    match field(rest, "more") {
        Err(e) => Err(e),
        Ok(s) => continuation(s),
    }
}

/// The end of a line: an error where anything is left on it.
pub open spec fn line_end(rest: Option<Seq<u8>>) -> Result<(), Error> {
    match rest {
        Some(_) => Err(
            Error::MalformedHeader { reason: "trailing octets after the last header field" },
        ),
        None => Ok(()),
    }
}

/// What follows the `SEQ` token: channel, acknowledged sequence number and window.
#[verifier::opaque]
pub open spec fn seq_fields(r0: Option<Seq<u8>>) -> Result<SeqView, Error> {
    let r1 = after_field(r0);
    let r2 = after_field(r1);
    match (
        numeric(r0, "channel", MAX_CHANNEL_NO),
        numeric(r1, "ackno", MAX_SEQ_NO),
        numeric(r2, "window", MAX_FRAME_SIZE),
        line_end(after_field(r2)),
    ) {
        (Err(e), _, _, _) => Err(e),
        (_, Err(e), _, _) => Err(e),
        (_, _, Err(e), _) => Err(e),
        (_, _, _, Err(e)) => Err(e),
        (Ok(channel), Ok(ackno), Ok(window), Ok(_)) => Ok(SeqView { channel, ackno, window }),
    }
}

/// What follows the token of a data frame. The first field that is wrong decides the error, and
/// the payload ceiling is looked at last.
#[verifier::opaque]
pub open spec fn data_fields(kind: FrameKind, r0: Option<Seq<u8>>, max_frame_size: u32) -> Result<
    DataHeader,
    Error,
> {
    let r1 = after_field(r0);
    let r2 = after_field(r1);
    let r3 = after_field(r2);
    let r4 = after_field(r3);
    let r5 = after_field(r4);
    let ansno: Result<Option<u32>, Error> = if kind == FrameKind::Ans {
        match numeric(r5, "ansno", MAX_ANS_NO) {
            Err(e) => Err(e),
            Ok(n) => Ok(Some(n)),
        }
    } else {
        Ok(None)
    };
    let end = line_end(
        if kind == FrameKind::Ans {
            after_field(r5)
        } else {
            r5
        },
    );
    match (
        numeric(r0, "channel", MAX_CHANNEL_NO),
        numeric(r1, "msgno", MAX_MSG_NO),
        continuation_field(r2),
        numeric(r3, "seqno", MAX_SEQ_NO),
        numeric(r4, "size", MAX_FRAME_SIZE),
        ansno,
        end,
    ) {
        (Err(e), _, _, _, _, _, _) => Err(e),
        (_, Err(e), _, _, _, _, _) => Err(e),
        (_, _, Err(e), _, _, _, _) => Err(e),
        (_, _, _, Err(e), _, _, _) => Err(e),
        (_, _, _, _, Err(e), _, _) => Err(e),
        (_, _, _, _, _, Err(e), _) => Err(e),
        (_, _, _, _, _, _, Err(e)) => Err(e),
        (Ok(channel), Ok(msgno), Ok(more), Ok(seqno), Ok(size), Ok(ansno), Ok(_)) => if size
            > max_frame_size {
            Err(Error::FrameTooLarge { size, limit: max_frame_size })
        } else {
            Ok(DataHeader { kind, channel, msgno, more, seqno, size, ansno })
        },
    }
}

/// What a header line, without its line end, says.
pub open spec fn header_line(line: Seq<u8>, max_frame_size: u32) -> Result<Header, Error> {
    if line.len() < 3 {
        Err(Error::MalformedHeader { reason: "frame type token truncated" })
    } else if line.len() == 3 || line[3] != SPACE {
        Err(Error::MalformedHeader { reason: "expected a single space after the frame type" })
    } else if line.take(3) == SeqView::token() {
        match seq_fields(Some(line.skip(4))) {
            Err(e) => Err(e),
            Ok(f) => Ok(Header::Flow(f)),
        }
    } else {
        match FrameKind::of_token(line.take(3)) {
            None => Err(Error::UnknownFrameType),
            Some(kind) => match data_fields(kind, Some(line.skip(4)), max_frame_size) {
                Err(e) => Err(e),
                Ok(h) => Ok(Header::Data(h)),
            },
        }
    }
}

/// The header at the front of a buffer and the number of octets it takes, if a whole one is
/// there.
pub open spec fn leading_header(buf: Seq<u8>, max_frame_size: u32) -> Result<
    Option<(Header, int)>,
    Error,
> {
    let window = if buf.len() < MAX_HEADER_LEN {
        buf
    } else {
        buf.take(MAX_HEADER_LEN as int)
    };
    let lf = position(window, LF);
    if lf == window.len() {
        if buf.len() >= MAX_HEADER_LEN {
            Err(Error::HeaderTooLong { limit: MAX_HEADER_LEN })
        } else {
            Ok(None)
        }
    } else if lf == 0 || buf[lf - 1] != CR {
        Err(Error::BareNewlineInHeader)
    } else {
        match header_line(buf.take(lf - 1), max_frame_size) {
            Err(e) => Err(e),
            Ok(h) => Ok(Some((h, lf + 1))),
        }
    }
}

/// What a decoder remembers between calls: its payload ceiling, and the header of the frame
/// whose payload it is waiting for.
pub struct DecoderView {
    pub max_frame_size: u32,
    pub pending: Option<DataHeader>,
}

/// What one call to [`Decoder::decode`] leaves behind: the decoder, the octets not consumed, and
/// the frame, if one was complete.
#[verifier::ext_equal]
pub struct Decoded {
    pub decoder: DecoderView,
    pub rest: Seq<u8>,
    pub frame: Option<FrameView>,
}

impl DecoderView {
    /// Takes the payload and trailer that `header` announces off the front of `buf`, once they
    /// are all there.
    pub open spec fn body(self, header: DataHeader, buf: Seq<u8>) -> Result<Decoded, Error> {
        let size = header.size as int;
        if buf.len() < size + 5 {
            Ok(
                Decoded {
                    decoder: DecoderView { pending: Some(header), ..self },
                    rest: buf,
                    frame: None,
                },
            )
        } else if buf.subrange(size, size + 5) != TRAILER@ {
            Err(Error::MissingTrailer)
        } else {
            Ok(
                Decoded {
                    decoder: DecoderView { pending: None, ..self },
                    rest: buf.skip(size + 5),
                    frame: Some(FrameView::Data(header.with_payload(buf.take(size)))),
                },
            )
        }
    }

    /// What decoding from `buf` gives.
    pub open spec fn decode(self, buf: Seq<u8>) -> Result<Decoded, Error> {
        match self.pending {
            Some(header) => self.body(header, buf),
            None => match leading_header(buf, self.max_frame_size) {
                Err(e) => Err(e),
                Ok(None) => Ok(Decoded { decoder: self, rest: buf, frame: None }),
                Ok(Some((Header::Flow(f), n))) => Ok(
                    Decoded {
                        decoder: self,
                        rest: buf.skip(n),
                        frame: Some(FrameView::Flow(f)),
                    },
                ),
                Ok(Some((Header::Data(h), n))) => self.body(h, buf.skip(n)),
            },
        }
    }
}

/// Incremental BEEP frame decoder.
///
/// # Example
///
/// ```
/// use bytes::BytesMut;
/// use vortice::codec::Decoder;
/// use vortice::frame::FrameKind;
///
/// let mut decoder = Decoder::new();
/// let mut buf = BytesMut::from(&b"RPY 0 0 . 0 5\r\nhelloEND\r\n"[..]);
///
/// let frame = decoder.decode(&mut buf).unwrap().expect("complete frame");
/// let data = frame.as_data().unwrap();
/// assert_eq!(data.kind(), FrameKind::Rpy);
/// assert_eq!(data.payload(), b"hello");
/// assert!(decoder.decode(&mut buf).unwrap().is_none());
/// ```
#[derive(Debug)]
pub struct Decoder {
    max_frame_size: u32,
    pending: Option<DataHeader>,
}

impl View for Decoder {
    type V = DecoderView;

    closed spec fn view(&self) -> DecoderView {
        DecoderView { max_frame_size: self.max_frame_size, pending: self.pending }
    }
}

impl Clone for Decoder {
    fn clone(&self) -> (r: Decoder)
        ensures
            r@ == self@,
    {
        proof {
            use_type_invariant(self);
        }
        Decoder { max_frame_size: self.max_frame_size, pending: self.pending }
    }
}

impl Default for Decoder {
    fn default() -> (r: Decoder)
        ensures
            r@ == (DecoderView { max_frame_size: MAX_FRAME_SIZE, pending: None }),
    {
        Decoder::new()
    }
}

impl Decoder {
    #[verifier::type_invariant]
    spec fn well_formed(self) -> bool {
        self.pending matches Some(h) ==> h.valid()
    }

    /// Creates a decoder accepting frames up to [`MAX_FRAME_SIZE`].
    ///
    /// Note that this is the protocol ceiling, not a resource limit: what actually bounds
    /// how much a peer may send is the BEEP window, enforced by the session layer. Use
    /// [`Decoder::with_max_frame_size`] to add a hard cap on top of it.
    #[must_use]
    pub fn new() -> (r: Decoder)
        ensures
            r@ == (DecoderView { max_frame_size: MAX_FRAME_SIZE, pending: None }),
    {
        Decoder { max_frame_size: MAX_FRAME_SIZE, pending: None }
    }

    /// Creates a decoder that refuses any frame announcing more than `max` payload octets.
    #[must_use]
    pub fn with_max_frame_size(max: u32) -> (r: Decoder)
        ensures
            r@ == (DecoderView { max_frame_size: max, pending: None }),
    {
        Decoder { max_frame_size: max, pending: None }
    }

    /// The configured payload ceiling.
    #[must_use]
    pub fn max_frame_size(&self) -> (r: u32)
        ensures
            r == self@.max_frame_size,
    {
        self.max_frame_size
    }

    /// Whether a header has been parsed and its payload is still being awaited.
    #[must_use]
    pub fn has_partial_frame(&self) -> (r: bool)
        ensures
            r == (self@.pending is Some),
    {
        self.pending.is_some()
    }

    /// Consumes as many octets of `src` as one whole frame needs and returns it.
    ///
    /// Returns `Ok(None)` when `src` does not yet hold a complete frame; the octets already
    /// examined are retained, so the caller simply appends more and calls again.
    ///
    /// # Errors
    ///
    /// Any [`Error`] returned here is fatal for the session, and a transport is expected to
    /// shut the connection down. The decoder is left in an unspecified state and must not be
    /// reused.
    pub fn decode(&mut self, src: &mut BytesMut) -> (r: Result<Option<Frame>, Error>)
        ensures
            match r {
                Ok(frame) => {
                    &&& old(self)@.decode(octets::buffered(*old(src))) is Ok
                    &&& old(self)@.decode(octets::buffered(*old(src)))->Ok_0 == (Decoded {
                        decoder: final(self)@,
                        rest: octets::buffered(*final(src)),
                        frame: frame_view(frame),
                    })
                    &&& frame matches Some(f) ==> f@.valid()
                    &&& frame is None && final(self)@.pending is None ==> octets::buffered(
                        *final(src),
                    ) == octets::buffered(*old(src))
                },
                Err(e) => old(self)@.decode(octets::buffered(*old(src))) == Err::<Decoded, Error>(
                    e,
                ),
            },
    {
        proof {
            use_type_invariant(&*self);
        }
        let header = match self.pending {
            Some(header) => header,
            None => match decode_header(src, self.max_frame_size) {
                Err(e) => return Err(e),
                Ok(None) => return Ok(None),
                Ok(Some(Parsed::Flow(seq))) => return Ok(Some(Frame::Flow(seq))),
                Ok(Some(Parsed::Data(header))) => header,
            },
        };
        self.pending = Some(header);
        let size: usize = header.size as usize;
        let ghost buf = octets::buffered(*src);
        if src.len() < size + TRAILER.len() {
            return Ok(None);
        }
        let payload = src.split_to(size).freeze();
        assert(octets::buffered(*src) =~= buf.skip(size as int));
        assert(octets::buffered(*src).subrange(0, 5) =~= buf.subrange(size as int, size + 5));
        if !octets::starts_with(octets::buffer_slice(src), TRAILER.as_slice()) {
            return Err(Error::MissingTrailer);
        }
        octets::advance(src, TRAILER.len());
        assert(octets::buffered(*src) =~= buf.skip(size + 5));
        self.pending = None;
        let frame = match header.ansno {
            Some(ansno) => DataFrame::new_ans(
                header.channel,
                header.msgno,
                header.seqno,
                ansno,
                payload,
            ),
            None => DataFrame::new(
                header.kind,
                header.channel,
                header.msgno,
                header.seqno,
                payload,
            ),
        };
        match frame {
            Ok(f) => Ok(Some(Frame::Data(f.with_more(header.more)))),
            Err(e) => Err(e),
        }
    }
}

/// The view of a frame that may be absent.
pub open spec fn frame_view(frame: Option<Frame>) -> Option<FrameView> {
    match frame {
        Some(f) => Some(f@),
        None => None,
    }
}

/// Outcome of parsing one header line.
enum Parsed {
    Data(DataHeader),
    Flow(SeqFrame),
}

impl Parsed {
    spec fn header(self) -> Header {
        match self {
            Parsed::Data(h) => Header::Data(h),
            Parsed::Flow(f) => Header::Flow(f@),
        }
    }

    spec fn valid(self) -> bool {
        match self {
            Parsed::Data(h) => h.valid(),
            Parsed::Flow(f) => f@.valid(),
        }
    }
}

/// Reads the header line at the front of `buf`, if a complete one is there, and says how many
/// octets it takes.
fn read_header(buf: &[u8], max_frame_size: u32) -> (r: Result<Option<(Parsed, usize)>, Error>)
    ensures
        match r {
            Err(e) => leading_header(buf@, max_frame_size) == Err::<Option<(Header, int)>, Error>(
                e,
            ),
            Ok(None) => leading_header(buf@, max_frame_size) == Ok::<
                Option<(Header, int)>,
                Error,
            >(None),
            Ok(Some((parsed, n))) => {
                &&& leading_header(buf@, max_frame_size) == Ok::<Option<(Header, int)>, Error>(
                    Some((parsed.header(), n as int)),
                )
                &&& parsed.valid()
                &&& n <= buf@.len()
                &&& n <= MAX_HEADER_LEN
            },
        },
{
    let len: usize = buf.len();
    let window: usize = if len < MAX_HEADER_LEN {
        len
    } else {
        MAX_HEADER_LEN
    };
    let head = vstd::slice::slice_subrange(buf, 0, window);
    proof {
        assert(window == len ==> head@ =~= buf@);
        assert(head@ =~= buf@.take(window as int));
        lemma_position(head@, LF);
    }
    let lf: usize = match find(head, LF) {
        Some(lf) => lf,
        None => {
            if len >= MAX_HEADER_LEN {
                return Err(Error::HeaderTooLong { limit: MAX_HEADER_LEN });
            }
            return Ok(None);
        },
    };
    if lf == 0 || buf[lf - 1] != CR {
        return Err(Error::BareNewlineInHeader);
    }
    let line = vstd::slice::slice_subrange(buf, 0, lf - 1);
    assert(line@ =~= buf@.take(lf - 1));
    match parse_header(line, max_frame_size) {
        Err(e) => Err(e),
        Ok(parsed) => Ok(Some((parsed, lf + 1))),
    }
}

/// Reads and consumes one header line, if a complete one is present.
fn decode_header(src: &mut BytesMut, max_frame_size: u32) -> (r: Result<Option<Parsed>, Error>)
    ensures
        match r {
            Err(e) => leading_header(octets::buffered(*old(src)), max_frame_size) == Err::<
                Option<(Header, int)>,
                Error,
            >(e),
            Ok(None) => {
                &&& leading_header(octets::buffered(*old(src)), max_frame_size) == Ok::<
                    Option<(Header, int)>,
                    Error,
                >(None)
                &&& octets::buffered(*final(src)) == octets::buffered(*old(src))
            },
            Ok(Some(parsed)) => {
                &&& leading_header(octets::buffered(*old(src)), max_frame_size) matches Ok(
                    Some((h, n)),
                )
                &&& h == parsed.header()
                &&& parsed.valid()
                &&& octets::buffered(*final(src)) == octets::buffered(*old(src)).skip(n)
            },
        },
{
    let ghost buf = octets::buffered(*src);
    match read_header(octets::buffer_slice(src), max_frame_size) {
        Err(e) => Err(e),
        Ok(None) => Ok(None),
        Ok(Some((parsed, n))) => {
            octets::advance(src, n);
            assert(octets::buffered(*src) =~= buf.skip(n as int));
            Ok(Some(parsed))
        },
    }
}

/// How many octets the whole frame at the front of a buffer takes, if one is there.
pub open spec fn boundary(buf: Seq<u8>) -> Option<nat> {
    match (DecoderView { max_frame_size: MAX_FRAME_SIZE, pending: None }).decode(buf) {
        Ok(d) => match d.frame {
            Some(_) => Some((buf.len() - d.rest.len()) as nat),
            None => None,
        },
        Err(_) => None,
    }
}

/// The number of octets that the first frame in `buf` takes.
///
/// Returns `None` where `buf` does not begin with a whole frame: the frame is not complete, or
/// what stands there is none.
pub fn frame_boundary(buf: &[u8]) -> (r: Option<usize>)
    ensures
        match r {
            Some(n) => boundary(buf@) == Some(n as nat) && 0 < n <= buf@.len(),
            None => boundary(buf@) is None,
        },
{
    proof {
        lemma_decode_consumes(
            DecoderView { max_frame_size: MAX_FRAME_SIZE, pending: None },
            buf@,
        );
    }
    let len: usize = buf.len();
    match read_header(buf, MAX_FRAME_SIZE) {
        Ok(Some((Parsed::Flow(_), n))) => Some(n),
        Ok(Some((Parsed::Data(header), n))) => {
            let size: usize = header.size as usize;
            if len - n < size + TRAILER.len() {
                return None;
            }
            let end: usize = n + size;
            let trailer = vstd::slice::slice_subrange(buf, end, end + TRAILER.len());
            assert(trailer@ =~= buf@.skip(n as int).subrange(size as int, size + 5));
            if octets::same(trailer, TRAILER.as_slice()) {
                Some(end + TRAILER.len())
            } else {
                None
            }
        },
        _ => None,
    }
}

/// Where a whole frame stands at the front of a buffer, the boundary is where that frame ends,
/// whatever follows it.
pub proof fn law_boundary_follows_the_frame(f: FrameView, rest: Seq<u8>)
    requires
        f.valid(),
    ensures
        boundary(f.wire() + rest) == Some(f.wire().len()),
{
    law_round_trip(f, MAX_FRAME_SIZE, rest);
}

fn parse_header(line: &[u8], max_frame_size: u32) -> (r: Result<Parsed, Error>)
    ensures
        match r {
            Err(e) => header_line(line@, max_frame_size) == Err::<Header, Error>(e),
            Ok(parsed) => header_line(line@, max_frame_size) == Ok::<Header, Error>(parsed.header())
                && parsed.valid(),
        },
{
    proof {
        reveal(data_fields);
        reveal(seq_fields);
    }
    if line.len() < 3 {
        return Err(Error::MalformedHeader { reason: "frame type token truncated" });
    }
    if line.len() == 3 || line[3] != SPACE {
        return Err(
            Error::MalformedHeader { reason: "expected a single space after the frame type" },
        );
    }
    let token = vstd::slice::slice_subrange(line, 0, 3);
    let mut fields = Fields::new(vstd::slice::slice_subrange(line, 4, line.len()));
    proof {
        assert(token@ =~= line@.take(3));
        assert(fields@ == Some(line@.skip(4))) by {
            assert(line@.subrange(4, line@.len() as int) =~= line@.skip(4));
        }
        assert(token@[0] == 0x53 && token@[1] == 0x45 && token@[2] == 0x51 ==> token@
            =~= SeqView::token());
    }
    if token[0] == 0x53 && token[1] == 0x45 && token[2] == 0x51 {
        let channel: u32 = parse_u32(fields.next("channel")?, "channel", MAX_CHANNEL_NO)?;
        let ackno: u32 = parse_u32(fields.next("ackno")?, "ackno", MAX_SEQ_NO)?;
        let window: u32 = parse_u32(fields.next("window")?, "window", MAX_FRAME_SIZE)?;
        fields.finish()?;
        let seq = SeqFrame::new(channel, ackno, window)?;
        return Ok(Parsed::Flow(seq));
    }
    let kind = match FrameKind::from_token(token) {
        Some(kind) => kind,
        None => return Err(Error::UnknownFrameType),
    };
    let channel: u32 = parse_u32(fields.next("channel")?, "channel", MAX_CHANNEL_NO)?;
    let msgno: u32 = parse_u32(fields.next("msgno")?, "msgno", MAX_MSG_NO)?;
    let more = parse_continuation(fields.next("more")?)?;
    let seqno: u32 = parse_u32(fields.next("seqno")?, "seqno", MAX_SEQ_NO)?;
    let size: u32 = parse_u32(fields.next("size")?, "size", MAX_FRAME_SIZE)?;
    let ansno = if kind.has_ansno() {
        Some(parse_u32(fields.next("ansno")?, "ansno", MAX_ANS_NO)?)
    } else {
        None
    };
    fields.finish()?;
    if size > max_frame_size {
        return Err(Error::FrameTooLarge { size, limit: max_frame_size });
    }
    Ok(Parsed::Data(DataHeader { kind, channel, msgno, more, seqno, size, ansno }))
}

/// Splits a header line into space separated fields, rejecting empty ones.
struct Fields<'a> {
    rest: Option<&'a [u8]>,
}

impl<'a> View for Fields<'a> {
    type V = Option<Seq<u8>>;

    closed spec fn view(&self) -> Option<Seq<u8>> {
        match self.rest {
            Some(s) => Some(s@),
            None => None,
        }
    }
}

impl<'a> Fields<'a> {
    fn new(rest: &'a [u8]) -> (r: Fields<'a>)
        ensures
            r@ == Some(rest@),
    {
        Fields { rest: Some(rest) }
    }

    fn next(&mut self, name: &'static str) -> (r: Result<&'a [u8], Error>)
        ensures
            match r {
                Ok(s) => {
                    &&& field(old(self)@, name) == Ok::<Seq<u8>, Error>(s@)
                    &&& final(self)@ == after_field(old(self)@)
                },
                Err(e) => field(old(self)@, name) == Err::<Seq<u8>, Error>(e),
            },
    {
        let rest = match self.rest {
            Some(rest) => rest,
            None => return Err(Error::MissingField { field: name }),
        };
        proof {
            lemma_position(rest@, SPACE);
        }
        let len: usize = rest.len();
        let value = match find(rest, SPACE) {
            Some(i) => {
                self.rest = Some(vstd::slice::slice_subrange(rest, i + 1, len));
                assert(rest@.subrange(i + 1, rest@.len() as int) =~= rest@.skip(i + 1));
                vstd::slice::slice_subrange(rest, 0, i)
            },
            None => {
                self.rest = None;
                assert(rest@.take(rest@.len() as int) =~= rest@);
                rest
            },
        };
        if value.len() == 0 {
            return Err(Error::MissingField { field: name });
        }
        Ok(value)
    }

    fn finish(&self) -> (r: Result<(), Error>)
        ensures
            r == line_end(self@),
    {
        if self.rest.is_some() {
            return Err(
                Error::MalformedHeader { reason: "trailing octets after the last header field" },
            );
        }
        Ok(())
    }
}

fn parse_u32(value: &[u8], name: &'static str, max: u32) -> (r: Result<u32, Error>)
    ensures
        r == (match number(value@, name, max) {
            Err(e) => Err::<u32, Error>(e),
            Ok(n) => Ok::<u32, Error>(n as u32),
        }),
        r matches Ok(n) ==> n <= max,
{
    let mut total: u64 = 0;
    let mut i: usize = 0;
    while i < value.len()
        invariant
            i <= value@.len(),
            total <= max,
            number(value@.take(i as int), name, max) == Ok::<nat, Error>(total as nat),
        decreases value@.len() - i,
    {
        let byte: u8 = value[i];
        proof {
            assert(value@.take(i + 1).drop_last() =~= value@.take(i as int));
            assert(value@.take(i + 1).last() == byte);
            lemma_number_stops(value@, i + 1, name, max);
        }
        if byte < 0x30 || byte > 0x39 {
            return Err(Error::InvalidDigit { field: name });
        }
        total = total * 10 + (byte - 0x30) as u64;
        if total > max as u64 {
            return Err(Error::ValueOutOfRange { field: name, max });
        }
        i += 1;
    }
    assert(value@.take(i as int) =~= value@);
    Ok(total as u32)
}

/// An error in the front of a number is the error of the number.
proof fn lemma_number_stops(s: Seq<u8>, i: int, name: &'static str, max: u32)
    requires
        0 <= i <= s.len(),
    ensures
        number(s.take(i), name, max) is Err ==> number(s, name, max) == number(
            s.take(i),
            name,
            max,
        ),
    decreases s.len() - i,
{
    if i < s.len() {
        lemma_number_stops(s, i + 1, name, max);
        assert(s.take(i + 1).drop_last() =~= s.take(i));
    } else {
        assert(s.take(i) =~= s);
    }
}

fn parse_continuation(value: &[u8]) -> (r: Result<bool, Error>)
    ensures
        r == continuation(value@),
{
    if value.len() != 1 {
        return Err(
            Error::MalformedHeader {
                reason: "continuation indicator must be a single character",
            },
        );
    }
    if value[0] == COMPLETE {
        Ok(false)
    } else if value[0] == INTERMEDIATE {
        Ok(true)
    } else {
        Err(Error::InvalidContinuation { found: value[0] })
    }
}


/// Everything a decoder makes of a run of octets: the frames, in order, and what it is left
/// with, or the error that ends it.
#[verifier::ext_equal]
pub struct Drained {
    pub frames: Seq<FrameView>,
    pub decoder: DecoderView,
    pub rest: Seq<u8>,
    pub error: Option<Error>,
}

impl DecoderView {
    /// What decoding from `buf` until no more frames come gives.
    pub open spec fn drain(self, buf: Seq<u8>) -> Drained
        decreases buf.len(),
    {
        match self.decode(buf) {
            Err(e) => Drained {
                frames: Seq::empty(),
                decoder: self,
                rest: buf,
                error: Some(e),
            },
            Ok(d) => match d.frame {
                None => Drained {
                    frames: Seq::empty(),
                    decoder: d.decoder,
                    rest: d.rest,
                    error: None,
                },
                Some(f) => if d.rest.len() >= buf.len() {
                    Drained { frames: seq![f], decoder: d.decoder, rest: d.rest, error: None }
                } else {
                    let more = d.decoder.drain(d.rest);
                    Drained { frames: seq![f] + more.frames, ..more }
                },
            },
        }
    }
}

/// A header that is whole, or wrong, stays so whatever follows it.
proof fn lemma_leading_header_extends(a: Seq<u8>, b: Seq<u8>, max_frame_size: u32)
    ensures
        leading_header(a, max_frame_size) is Err ==> leading_header(a + b, max_frame_size)
            == leading_header(a, max_frame_size),
        leading_header(a, max_frame_size) matches Ok(Some((_, n))) ==> 0 < n <= a.len()
            && leading_header(a + b, max_frame_size) == leading_header(a, max_frame_size),
{
    let wa = if a.len() < MAX_HEADER_LEN {
        a
    } else {
        a.take(MAX_HEADER_LEN as int)
    };
    let ab = a + b;
    let wab = if ab.len() < MAX_HEADER_LEN {
        ab
    } else {
        ab.take(MAX_HEADER_LEN as int)
    };
    lemma_position(wa, LF);
    lemma_position(wab, LF);
    let lf = position(wa, LF);
    assert(forall|i: int| 0 <= i < wa.len() ==> wa[i] == wab[i]);
    if a.len() >= MAX_HEADER_LEN {
        assert(wa =~= wab);
    }
    if lf < wa.len() {
        assert(wab[lf] == LF);
        assert(same_place(lf) == position(wab, LF));
        assert(ab[lf - 1] == a[lf - 1] || lf == 0);
        if lf > 0 {
            assert(ab.take(lf - 1) =~= a.take(lf - 1));
        }
    }
}

/// A body that is whole, or wrong, stays so whatever follows it.
proof fn lemma_body_extends(d: DecoderView, header: DataHeader, a: Seq<u8>, b: Seq<u8>)
    ensures
        match d.body(header, a) {
            Err(e) => d.body(header, a + b) == Err::<Decoded, Error>(e),
            Ok(x) => match x.frame {
                Some(f) => d.body(header, a + b) == Ok::<Decoded, Error>(
                    Decoded { rest: x.rest + b, ..x },
                ),
                None => d.body(header, a + b) == x.decoder.decode(x.rest + b),
            },
        },
{
    let size = header.size as int;
    let ab = a + b;
    if a.len() >= size + 5 {
        assert(ab.subrange(size, size + 5) =~= a.subrange(size, size + 5));
        assert(ab.take(size) =~= a.take(size));
        assert(ab.skip(size + 5) =~= a.skip(size + 5) + b);
    }
}

/// How the octets are cut up on their way does not matter to a single step: a frame, or an
/// error, that `a` is enough for comes out the same when `b` follows at once, and where `a` is
/// not enough, the decoder goes on with `b` as if both had come together.
pub proof fn law_decode_fragmented(d: DecoderView, a: Seq<u8>, b: Seq<u8>)
    ensures
        match d.decode(a) {
            Err(e) => d.decode(a + b) == Err::<Decoded, Error>(e),
            Ok(x) => match x.frame {
                Some(f) => d.decode(a + b) == Ok::<Decoded, Error>(
                    Decoded { rest: x.rest + b, ..x },
                ),
                None => d.decode(a + b) == x.decoder.decode(x.rest + b),
            },
        },
{
    match d.pending {
        Some(header) => lemma_body_extends(d, header, a, b),
        None => {
            lemma_leading_header_extends(a, b, d.max_frame_size);
            match leading_header(a, d.max_frame_size) {
                Ok(Some((h, n))) => {
                    assert((a + b).skip(n) =~= a.skip(n) + b);
                    match h {
                        Header::Data(header) => lemma_body_extends(d, header, a.skip(n), b),
                        Header::Flow(_) => {},
                    }
                },
                _ => {},
            }
        },
    }
}

/// A frame takes at least one octet.
pub proof fn lemma_decode_consumes(d: DecoderView, buf: Seq<u8>)
    ensures
        d.decode(buf) matches Ok(x) ==> (x.frame is Some ==> x.rest.len() < buf.len()),
{
    if d.pending is None {
        lemma_leading_header_extends(buf, Seq::empty(), d.max_frame_size);
    }
}

/// A decoder yields the same frames, in the same order and with the same outcome, whether octets
/// arrive all at once or in two parts. By repeating the argument, in any number of parts.
pub proof fn law_drain_fragmented(d: DecoderView, a: Seq<u8>, b: Seq<u8>)
    ensures
        ({
            let first = d.drain(a);
            let second = first.decoder.drain(first.rest + b);
            let whole = d.drain(a + b);
            if first.error is Some {
                whole.frames == first.frames && whole.error == first.error
            } else {
                &&& whole.frames == first.frames + second.frames
                &&& whole.error == second.error
                &&& whole.error is None ==> whole.decoder == second.decoder && whole.rest
                    == second.rest
            }
        }),
    decreases a.len(),
{
    law_decode_fragmented(d, a, b);
    lemma_decode_consumes(d, a);
    lemma_decode_consumes(d, a + b);
    match d.decode(a) {
        Err(_) => {},
        Ok(x) => match x.frame {
            None => {
                // The frames of the second part are all there are.
                let second = x.decoder.drain(x.rest + b);
                let whole = d.drain(a + b);
                lemma_decode_consumes(x.decoder, x.rest + b);
                assert(d.decode(a + b) == x.decoder.decode(x.rest + b));
                assert(whole.frames =~= second.frames);
                assert(d.drain(a).frames + second.frames =~= second.frames);
            },
            Some(f) => {
                law_drain_fragmented(x.decoder, x.rest, b);
                let first = x.decoder.drain(x.rest);
                let second = first.decoder.drain(first.rest + b);
                assert(d.drain(a).frames == seq![f] + first.frames);
                assert(d.drain(a + b).frames == seq![f] + x.decoder.drain(x.rest + b).frames);
                assert(seq![f] + (first.frames + second.frames) =~= (seq![f] + first.frames)
                    + second.frames);
            },
        },
    }
}

/// The rendering of a number in range reads back as that number.
proof fn lemma_number_of_decimal(n: nat, name: &'static str, max: u32)
    requires
        n <= max,
    ensures
        number(decimal::decimal(n), name, max) == Ok::<nat, Error>(n),
    decreases n,
{
    reveal_with_fuel(number, 2);
    decimal::lemma_decimal(n);
    let s = decimal::decimal(n);
    if n >= 10 {
        lemma_number_of_decimal(n / 10, name, max);
        assert(s.drop_last() =~= decimal::decimal(n / 10));
        assert(s.last() == decimal::digit_octet((n % 10) as int));
    } else {
        assert(s.drop_last() =~= Seq::<u8>::empty());
    }
}

/// A field with no space in it is what the line gives, and what follows the space is left.
proof fn lemma_field(s: Seq<u8>, t: Seq<u8>, name: &'static str)
    requires
        s.len() > 0,
        forall|i: int| 0 <= i < s.len() ==> s[i] != SPACE,
    ensures
        field(Some(s + seq![SPACE] + t), name) == Ok::<Seq<u8>, Error>(s),
        after_field(Some(s + seq![SPACE] + t)) == Some(t),
        field(Some(s), name) == Ok::<Seq<u8>, Error>(s),
        after_field(Some(s)) == None::<Seq<u8>>,
{
    let line = s + seq![SPACE] + t;
    lemma_position(line, SPACE);
    lemma_position(s, SPACE);
    assert(line[s.len() as int] == SPACE);
    assert(same_place(s.len() as int) == position(line, SPACE));
    assert(same_place(s.len() as int) == position(s, SPACE));
    assert(line.take(s.len() as int) =~= s);
    assert(line.skip(s.len() as int + 1) =~= t);
    assert(s.take(s.len() as int) =~= s);
}

/// A number written in decimal is a field, and reads back.
proof fn lemma_numeric_field(n: u32, t: Seq<u8>, name: &'static str, max: u32)
    requires
        n <= max,
    ensures
        numeric(Some(decimal::decimal(n as nat) + seq![SPACE] + t), name, max) == Ok::<u32, Error>(
            n,
        ),
        after_field(Some(decimal::decimal(n as nat) + seq![SPACE] + t)) == Some(t),
        numeric(Some(decimal::decimal(n as nat)), name, max) == Ok::<u32, Error>(n),
        after_field(Some(decimal::decimal(n as nat))) == None::<Seq<u8>>,
{
    decimal::lemma_decimal(n as nat);
    assert forall|i: int| 0 <= i < decimal::decimal(n as nat).len() implies decimal::decimal(
        n as nat,
    )[i] != SPACE by {
        assert(decimal::is_digit(decimal::decimal(n as nat)[i]));
    }
    lemma_field(decimal::decimal(n as nat), t, name);
    lemma_number_of_decimal(n as nat, name, max);
}

/// Whether a run of octets holds no line feed.
spec fn no_line_feed(s: Seq<u8>) -> bool {
    forall|i: int| 0 <= i < s.len() ==> s[i] != LF
}

/// A decimal rendering holds no line feed and at most ten digits.
proof fn lemma_decimal_plain(n: u32)
    ensures
        no_line_feed(decimal::decimal(n as nat)),
        1 <= decimal::decimal(n as nat).len() <= 10,
{
    decimal::lemma_decimal(n as nat);
    decimal::lemma_decimal_len_u32(n);
    assert forall|i: int| 0 <= i < decimal::decimal(n as nat).len() implies decimal::decimal(
        n as nat,
    )[i] != LF by {
        assert(decimal::is_digit(decimal::decimal(n as nat)[i]));
    }
}

/// A line of no more than the permitted length, ended by `CRLF`, is what is read.
proof fn lemma_leading_line(line: Seq<u8>, tail: Seq<u8>, max_frame_size: u32)
    requires
        no_line_feed(line),
        line.len() + 2 <= MAX_HEADER_LEN,
    ensures
        leading_header(line + seq![CR, LF] + tail, max_frame_size) == (match header_line(
            line,
            max_frame_size,
        ) {
            Err(e) => Err::<Option<(Header, int)>, Error>(e),
            Ok(h) => Ok(Some((h, line.len() as int + 2))),
        }),
        (line + seq![CR, LF] + tail).skip(line.len() as int + 2) == tail,
{
    let buf = line + seq![CR, LF] + tail;
    let window = if buf.len() < MAX_HEADER_LEN {
        buf
    } else {
        buf.take(MAX_HEADER_LEN as int)
    };
    let lf = line.len() + 1;
    lemma_position(window, LF);
    assert(buf[lf as int] == LF);
    assert(buf[lf - 1] == CR);
    assert forall|j: int| 0 <= j < lf implies window[j] != LF by {
        if j < line.len() {
            assert(window[j] == line[j]);
        } else {
            assert(window[j] == CR);
        }
    }
    assert(window[lf as int] == LF);
    assert(same_place(lf as int) == position(window, LF));
    assert(buf.take(lf - 1) =~= line);
    assert(buf.skip(line.len() as int + 2) =~= tail);
}

/// The header fields of a data frame from the size on.
spec fn fields_from_size(f: DataView) -> Seq<u8> {
    let size = decimal::decimal(f.payload.len());
    match f.ansno {
        Some(n) => size + seq![SPACE] + decimal::decimal(n as nat),
        None => size,
    }
}

/// The continuation field of a data frame.
spec fn more_field(f: DataView) -> Seq<u8> {
    seq![
        if f.more {
            INTERMEDIATE
        } else {
            COMPLETE
        },
    ]
}

/// The header fields of a data frame after its token, one within the other.
spec fn fields_from_channel(f: DataView) -> Seq<u8> {
    let sp = seq![SPACE];
    decimal::decimal(f.channel as nat) + sp + (decimal::decimal(f.msgno as nat) + sp + (more_field(
        f,
    ) + sp + (decimal::decimal(f.seqno as nat) + sp + fields_from_size(f))))
}

/// The fields of a valid data frame read back.
#[verifier::rlimit(40)]
#[verifier::spinoff_prover]
proof fn lemma_data_fields(f: DataView, max_frame_size: u32)
    requires
        f.valid(),
        f.payload.len() <= max_frame_size,
    ensures
        data_fields(f.kind, Some(fields_from_channel(f)), max_frame_size) == Ok::<
            DataHeader,
            Error,
        >(
            DataHeader {
                kind: f.kind,
                channel: f.channel,
                msgno: f.msgno,
                more: f.more,
                seqno: f.seqno,
                size: f.payload.len() as u32,
                ansno: f.ansno,
            },
        ),
{
    reveal(data_fields);
    let sp = seq![SPACE];
    let size = f.payload.len() as u32;
    let t5 = fields_from_size(f);
    let t4 = decimal::decimal(f.seqno as nat) + sp + t5;
    let t3 = more_field(f) + sp + t4;
    let t2 = decimal::decimal(f.msgno as nat) + sp + t3;
    let t1 = decimal::decimal(f.channel as nat) + sp + t2;
    lemma_numeric_field(f.channel, t2, "channel", MAX_CHANNEL_NO);
    lemma_numeric_field(f.msgno, t3, "msgno", MAX_MSG_NO);
    lemma_field(more_field(f), t4, "more");
    lemma_numeric_field(f.seqno, t5, "seqno", MAX_SEQ_NO);
    match f.ansno {
        Some(n) => {
            lemma_numeric_field(size, decimal::decimal(n as nat), "size", MAX_FRAME_SIZE);
            lemma_numeric_field(n, Seq::empty(), "ansno", MAX_ANS_NO);
        },
        None => {
            lemma_numeric_field(size, Seq::empty(), "size", MAX_FRAME_SIZE);
        },
    }
}

/// Joining with spaces groups either way.
proof fn lemma_regroup(
    k: Seq<u8>,
    c: Seq<u8>,
    m: Seq<u8>,
    o: Seq<u8>,
    q: Seq<u8>,
    z: Seq<u8>,
    n: Seq<u8>,
)
    ensures
        k + seq![SPACE] + c + seq![SPACE] + m + seq![SPACE] + o + seq![SPACE] + q + seq![SPACE] + z
            == k + seq![SPACE] + (c + seq![SPACE] + (m + seq![SPACE] + (o + seq![SPACE] + (q + seq![
            SPACE,
        ] + z)))),
        k + seq![SPACE] + c + seq![SPACE] + m + seq![SPACE] + o + seq![SPACE] + q + seq![SPACE] + z
            + seq![SPACE] + n == k + seq![SPACE] + (c + seq![SPACE] + (m + seq![SPACE] + (o + seq![
            SPACE,
        ] + (q + seq![SPACE] + (z + seq![SPACE] + n))))),
{
    assert(k + seq![SPACE] + c + seq![SPACE] + m + seq![SPACE] + o + seq![SPACE] + q + seq![SPACE]
        + z =~= k + seq![SPACE] + (c + seq![SPACE] + (m + seq![SPACE] + (o + seq![SPACE] + (q
        + seq![SPACE] + z)))));
    assert(k + seq![SPACE] + c + seq![SPACE] + m + seq![SPACE] + o + seq![SPACE] + q + seq![SPACE]
        + z + seq![SPACE] + n =~= k + seq![SPACE] + (c + seq![SPACE] + (m + seq![SPACE] + (o
        + seq![SPACE] + (q + seq![SPACE] + (z + seq![SPACE] + n))))));
}

/// Two runs without a line feed, joined by a space, hold none.
proof fn lemma_plain_join(a: Seq<u8>, b: Seq<u8>)
    requires
        no_line_feed(a),
        no_line_feed(b),
    ensures
        no_line_feed(a + seq![SPACE] + b),
        (a + seq![SPACE] + b).len() == a.len() + 1 + b.len(),
{
    let s = a + seq![SPACE] + b;
    assert forall|i: int| 0 <= i < s.len() implies s[i] != LF by {
        if i < a.len() {
            assert(s[i] == a[i]);
        } else if i > a.len() {
            assert(s[i] == b[i - a.len() - 1]);
        }
    }
}

/// The header of a data frame is its token, a space and its other fields; it is short and on
/// one line.
proof fn lemma_data_header_shape(f: DataView)
    requires
        f.valid(),
    ensures
        f.header() == f.kind.token() + seq![SPACE] + fields_from_channel(f),
        no_line_feed(f.header()),
        f.header().len() + 2 <= MAX_HEADER_LEN,
{
    let c = decimal::decimal(f.channel as nat);
    let m = decimal::decimal(f.msgno as nat);
    let q = decimal::decimal(f.seqno as nat);
    let z = decimal::decimal(f.payload.len());
    let n = match f.ansno {
        Some(n) => decimal::decimal(n as nat),
        None => Seq::empty(),
    };
    lemma_decimal_plain(f.channel);
    lemma_decimal_plain(f.msgno);
    lemma_decimal_plain(f.seqno);
    lemma_decimal_plain(f.payload.len() as u32);
    if let Some(n) = f.ansno {
        lemma_decimal_plain(n);
    }
    lemma_regroup(f.kind.token(), c, m, more_field(f), q, z, n);
    let t5 = fields_from_size(f);
    lemma_plain_join(z, n);
    lemma_plain_join(q, t5);
    let t4 = q + seq![SPACE] + t5;
    lemma_plain_join(more_field(f), t4);
    let t3 = more_field(f) + seq![SPACE] + t4;
    lemma_plain_join(m, t3);
    let t2 = m + seq![SPACE] + t3;
    lemma_plain_join(c, t2);
    lemma_plain_join(f.kind.token(), c + seq![SPACE] + t2);
}

/// The header line of a valid data frame reads back as its fields.
proof fn lemma_data_header(f: DataView, max_frame_size: u32)
    requires
        f.valid(),
        f.payload.len() <= max_frame_size,
    ensures
        header_line(f.kind.token() + seq![SPACE] + fields_from_channel(f), max_frame_size) == Ok::<
            Header,
            Error,
        >(
            Header::Data(
                DataHeader {
                    kind: f.kind,
                    channel: f.channel,
                    msgno: f.msgno,
                    more: f.more,
                    seqno: f.seqno,
                    size: f.payload.len() as u32,
                    ansno: f.ansno,
                },
            ),
        ),
{
    lemma_data_fields(f, max_frame_size);
    let t = fields_from_channel(f);
    let line = f.kind.token() + seq![SPACE] + t;
    assert(line.take(3) =~= f.kind.token());
    assert(line.skip(4) =~= t);
    FrameKind::lemma_tokens_differ();
    assert(f.kind.token()[0] != 0x53);
}

/// The header line of a valid `SEQ` frame reads back as its fields.
proof fn lemma_seq_header(f: SeqView, max_frame_size: u32)
    requires
        f.valid(),
    ensures
        header_line(f.header(), max_frame_size) == Ok::<Header, Error>(Header::Flow(f)),
        no_line_feed(f.header()),
        f.header().len() + 2 <= MAX_HEADER_LEN,
{
    reveal(seq_fields);
    let sp = seq![SPACE];
    let t3 = decimal::decimal(f.window as nat);
    let t2 = decimal::decimal(f.ackno as nat) + sp + t3;
    let t1 = decimal::decimal(f.channel as nat) + sp + t2;
    assert(f.header() =~= SeqView::token() + sp + t1);
    assert(f.header().take(3) =~= SeqView::token());
    assert(f.header().skip(4) =~= t1);
    lemma_numeric_field(f.channel, t2, "channel", MAX_CHANNEL_NO);
    lemma_numeric_field(f.ackno, t3, "ackno", MAX_SEQ_NO);
    lemma_numeric_field(f.window, Seq::empty(), "window", MAX_FRAME_SIZE);
    lemma_decimal_plain(f.channel);
    lemma_decimal_plain(f.ackno);
    lemma_decimal_plain(f.window);
}

/// Whatever frame is encoded, a decoder that permits its size reads it back, whole and
/// unchanged, and leaves what follows it untouched.
pub proof fn law_round_trip(f: FrameView, max_frame_size: u32, rest: Seq<u8>)
    requires
        f.valid(),
        f matches FrameView::Data(data) ==> data.payload.len() <= max_frame_size,
    ensures
        (DecoderView { max_frame_size, pending: None }).decode(f.wire() + rest) == Ok::<
            Decoded,
            Error,
        >(
            Decoded {
                decoder: DecoderView { max_frame_size, pending: None },
                rest,
                frame: Some(f),
            },
        ),
{
    match f {
        FrameView::Flow(seq) => {
            lemma_seq_header(seq, max_frame_size);
            lemma_leading_line(seq.header(), rest, max_frame_size);
        },
        FrameView::Data(data) => {
            let body = data.payload + TRAILER@ + rest;
            let header = DataHeader {
                kind: data.kind,
                channel: data.channel,
                msgno: data.msgno,
                more: data.more,
                seqno: data.seqno,
                size: data.payload.len() as u32,
                ansno: data.ansno,
            };
            lemma_data_header_shape(data);
            lemma_data_header(data, max_frame_size);
            lemma_leading_line(data.header(), body, max_frame_size);
            assert(f.wire() + rest =~= data.header() + seq![CR, LF] + body);
            lemma_body_round_trip(
                DecoderView { max_frame_size, pending: None },
                header,
                data.payload,
                rest,
            );
        },
    }
}

/// A payload and its trailer read back.
proof fn lemma_body_round_trip(
    d: DecoderView,
    header: DataHeader,
    payload: Seq<u8>,
    rest: Seq<u8>,
)
    requires
        header.size == payload.len(),
    ensures
        d.body(header, payload + TRAILER@ + rest) == Ok::<Decoded, Error>(
            Decoded {
                decoder: DecoderView { pending: None, ..d },
                rest,
                frame: Some(FrameView::Data(header.with_payload(payload))),
            },
        ),
{
    let body = payload + TRAILER@ + rest;
    let size = payload.len() as int;
    assert(TRAILER@.len() == 5);
    assert(body.subrange(size, size + 5) =~= TRAILER@);
    assert(body.take(size) =~= payload);
    assert(body.skip(size + 5) =~= rest);
}

/// A frame that was decoded keeps to the limits of its fields, so that encoding it again gives
/// octets that decode to the same frame.
pub proof fn law_decoded_frames_are_valid(d: DecoderView, buf: Seq<u8>)
    requires
        d.pending matches Some(h) ==> h.valid(),
    ensures
        d.decode(buf) matches Ok(x) ==> (x.frame matches Some(f) ==> f.valid()) && (
        x.decoder.pending matches Some(h) ==> h.valid()),
{
    if d.pending is None {
        match leading_header(buf, d.max_frame_size) {
            Ok(Some((h, n))) => {
                let window = if buf.len() < MAX_HEADER_LEN {
                    buf
                } else {
                    buf.take(MAX_HEADER_LEN as int)
                };
                let line = buf.take(position(window, LF) - 1);
                lemma_header_line_valid(line, d.max_frame_size);
            },
            _ => {},
        }
    }
}

/// A number that is read stays within its limit.
proof fn lemma_number_bounded(s: Seq<u8>, name: &'static str, max: u32)
    ensures
        number(s, name, max) matches Ok(n) ==> n <= max,
    decreases s.len(),
{
    if s.len() > 0 {
        lemma_number_bounded(s.drop_last(), name, max);
    }
}

/// A numeric field that is read stays within its limit.
proof fn lemma_numeric_bounded(rest: Option<Seq<u8>>, name: &'static str, max: u32)
    ensures
        numeric(rest, name, max) matches Ok(n) ==> n <= max,
{
    if let Ok(s) = field(rest, name) {
        lemma_number_bounded(s, name, max);
    }
}

/// A header line that is read keeps to the limits of its fields.
proof fn lemma_header_line_valid(line: Seq<u8>, max_frame_size: u32)
    ensures
        match header_line(line, max_frame_size) {
            Ok(Header::Data(h)) => h.valid(),
            Ok(Header::Flow(f)) => f.valid(),
            Err(_) => true,
        },
{
    reveal(data_fields);
    reveal(seq_fields);
    let r0 = Some(line.skip(4));
    let r1 = after_field(r0);
    let r2 = after_field(r1);
    let r3 = after_field(r2);
    let r4 = after_field(r3);
    let r5 = after_field(r4);
    lemma_numeric_bounded(r0, "channel", MAX_CHANNEL_NO);
    lemma_numeric_bounded(r1, "msgno", MAX_MSG_NO);
    lemma_numeric_bounded(r2, "window", MAX_FRAME_SIZE);
    lemma_numeric_bounded(r4, "size", MAX_FRAME_SIZE);
    lemma_numeric_bounded(r5, "ansno", MAX_ANS_NO);
}

} // verus!
