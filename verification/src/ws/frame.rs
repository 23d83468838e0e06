//! WebSocket frame headers, as specified in RFC 6455, section 5.2: buffers in, buffers out.

use crate::decimal;
use crate::error;
use crate::octets;
use crate::ws::digest;
use crate::ws::error::Error;
use bytes::BytesMut;
use vstd::prelude::*;

verus! {

/// Largest frame payload accepted from a peer.
///
/// A frame header can declare a 64-bit length, so without a ceiling a single header would let
/// a peer name more memory than the machine has. BEEP frames are bounded by the channel
/// window and never approach this.
pub const MAX_PAYLOAD: usize = 16_777_216;

/// Largest payload put into one outgoing frame.
///
/// Writes larger than this are split across frames. Message boundaries carry no meaning in
/// this binding, so splitting is free.
pub const MAX_SEND_PAYLOAD: usize = 65_536;

/// A frame type, from the four-bit opcode of RFC 6455.
#[derive(Debug, Clone, Copy, PartialEq, Eq, Structural)]
pub enum OpCode {
    /// More of the message the previous frame began.
    Continuation,
    /// A text message. Accepted, but its payload is not validated.
    Text,
    /// A binary message.
    Binary,
    /// The peer is closing.
    Close,
    /// A liveness probe, to be answered with [`OpCode::Pong`].
    Ping,
    /// The answer to a ping.
    Pong,
}

impl OpCode {
    /// The four bits naming an opcode on the wire.
    pub open spec fn number(self) -> u8 {
        match self {
            OpCode::Continuation => 0x0,
            OpCode::Text => 0x1,
            OpCode::Binary => 0x2,
            OpCode::Close => 0x8,
            OpCode::Ping => 0x9,
            OpCode::Pong => 0xa,
        }
    }

    /// The opcode that four bits name, if RFC 6455 does not reserve them.
    pub open spec fn of_number(value: u8) -> Option<OpCode> {
        if value == 0x0 {
            Some(OpCode::Continuation)
        } else if value == 0x1 {
            Some(OpCode::Text)
        } else if value == 0x2 {
            Some(OpCode::Binary)
        } else if value == 0x8 {
            Some(OpCode::Close)
        } else if value == 0x9 {
            Some(OpCode::Ping)
        } else if value == 0xa {
            Some(OpCode::Pong)
        } else {
            None
        }
    }

    /// Whether an opcode is that of a control frame.
    pub open spec fn controls(self) -> bool {
        self == OpCode::Close || self == OpCode::Ping || self == OpCode::Pong
    }

    /// The opcode for `value`, or `None` if RFC 6455 reserves it.
    pub fn from_bits(value: u8) -> (r: Option<OpCode>)
        ensures
            r == OpCode::of_number(value),
    {
        if value == 0x0 {
            Some(OpCode::Continuation)
        } else if value == 0x1 {
            Some(OpCode::Text)
        } else if value == 0x2 {
            Some(OpCode::Binary)
        } else if value == 0x8 {
            Some(OpCode::Close)
        } else if value == 0x9 {
            Some(OpCode::Ping)
        } else if value == 0xa {
            Some(OpCode::Pong)
        } else {
            None
        }
    }

    /// The four bits naming this opcode on the wire.
    pub fn bits(self) -> (r: u8)
        ensures
            r == self.number(),
    {
        match self {
            OpCode::Continuation => 0x0,
            OpCode::Text => 0x1,
            OpCode::Binary => 0x2,
            OpCode::Close => 0x8,
            OpCode::Ping => 0x9,
            OpCode::Pong => 0xa,
        }
    }

    /// Whether this is a control frame, which must be short and must not be fragmented.
    pub fn is_control(self) -> (r: bool)
        ensures
            r == self.controls(),
    {
        match self {
            OpCode::Close | OpCode::Ping | OpCode::Pong => true,
            _ => false,
        }
    }
}

/// A decoded frame header.
#[derive(Debug, Clone, Copy, PartialEq, Eq)]
pub struct Header {
    /// Whether this frame ends its message.
    pub fin: bool,
    /// What kind of frame follows.
    pub opcode: OpCode,
    /// The masking key, if the peer masked the payload.
    pub mask: Option<[u8; 4]>,
    /// Octets of payload following the header.
    pub payload_len: usize,
    /// Octets the header itself occupies.
    pub header_len: usize,
}

/// What a frame header says.
#[verifier::ext_equal]
pub struct HeaderView {
    pub fin: bool,
    pub opcode: OpCode,
    pub mask: Option<Seq<u8>>,
    pub payload_len: nat,
    pub header_len: nat,
}

/// The octets of a masking key that may be absent.
pub open spec fn mask_view(mask: Option<[u8; 4]>) -> Option<Seq<u8>> {
    match mask {
        Some(m) => Some(m@),
        None => None,
    }
}

impl View for Header {
    type V = HeaderView;

    open spec fn view(&self) -> HeaderView {
        HeaderView {
            fin: self.fin,
            opcode: self.opcode,
            mask: mask_view(self.mask),
            payload_len: self.payload_len as nat,
            header_len: self.header_len as nat,
        }
    }
}

/// A peer's framing that RFC 6455 does not allow.
#[derive(Debug, Clone, Copy, PartialEq, Eq)]
pub enum ProtocolError {
    /// A reserved bit was set without an extension having been negotiated.
    ReservedBits,
    /// The opcode is one RFC 6455 reserves.
    UnknownOpCode(u8),
    /// A control frame carried more than the 125 octets allowed.
    ControlFrameTooLarge(usize),
    /// A control frame arrived without its FIN bit.
    FragmentedControlFrame,
    /// The declared payload is larger than [`MAX_PAYLOAD`].
    PayloadTooLarge(u64),
    /// A length was encoded in more octets than it needed.
    NonMinimalLength,
}

impl ProtocolError {
    /// The text that describes an error.
    pub open spec fn text(self) -> Seq<char> {
        match self {
            ProtocolError::ReservedBits => "a reserved bit is set on a frame header"@,
            ProtocolError::UnknownOpCode(code) => "reserved websocket opcode 0x"@ + hex_text(code),
            ProtocolError::ControlFrameTooLarge(len) => "control frame of "@
                + decimal::decimal_text(len as nat) + " octets, the limit is 125"@,
            ProtocolError::FragmentedControlFrame => "a control frame was fragmented"@,
            ProtocolError::PayloadTooLarge(len) => "frame declares "@ + decimal::decimal_text(
                len as nat,
            ) + " octets of payload, the limit is 16777216"@,
            ProtocolError::NonMinimalLength => "a payload length was not minimally encoded"@,
        }
    }

    /// Describes the error for a person.
    pub fn message(&self) -> (out: String)
        ensures
            out@ == self.text(),
    {
        match self {
            ProtocolError::ReservedBits => "a reserved bit is set on a frame header".to_owned(),
            ProtocolError::UnknownOpCode(code) => {
                let mut out = "reserved websocket opcode 0x".to_owned();
                push_hex(&mut out, *code);
                out
            },
            ProtocolError::ControlFrameTooLarge(len) => error::numbered(
                "control frame of ",
                *len as u64,
                " octets, the limit is 125",
            ),
            ProtocolError::FragmentedControlFrame => "a control frame was fragmented".to_owned(),
            ProtocolError::PayloadTooLarge(len) => error::numbered(
                "frame declares ",
                *len,
                " octets of payload, the limit is 16777216",
            ),
            ProtocolError::NonMinimalLength =>
                "a payload length was not minimally encoded".to_owned(),
        }
    }
}

/// An octet in hexadecimal, without leading zeros.
pub open spec fn hex_text(octet: u8) -> Seq<char> {
    if octet < 16 {
        seq![decimal::hex_digit(octet as int)]
    } else {
        seq![decimal::hex_digit(octet as int / 16), decimal::hex_digit(octet as int % 16)]
    }
}

/// Appends an octet in hexadecimal, without leading zeros.
fn push_hex(out: &mut String, octet: u8)
    ensures
        final(out)@ == old(out)@ + hex_text(octet),
{
    let ghost before = out@;
    if octet >= 16 {
        out.push(decimal::hex_char(octet / 16));
    }
    out.push(decimal::hex_char(octet % 16));
    assert(out@ =~= before + hex_text(octet));
}

/// A number read from octets, the most significant first.
pub open spec fn big_endian(s: Seq<u8>) -> nat
    decreases s.len(),
{
    if s.len() == 0 {
        0
    } else {
        big_endian(s.drop_last()) * 256 + s.last() as nat
    }
}

/// The payload length that a header declares: the length itself, and how many octets after the
/// first two write it. Nothing where those octets are not there yet.
pub open spec fn declared_len(buffer: Seq<u8>) -> Result<Option<(nat, nat)>, ProtocolError> {
    let short = buffer[1] % 128;
    if short == 126 {
        if buffer.len() < 4 {
            Ok(None)
        } else if big_endian(buffer.subrange(2, 4)) < 126 {
            Err(ProtocolError::NonMinimalLength)
        } else {
            Ok(Some((big_endian(buffer.subrange(2, 4)), 2)))
        }
    } else if short == 127 {
        if buffer.len() < 10 {
            Ok(None)
        } else if big_endian(buffer.subrange(2, 10)) <= 0xffff {
            Err(ProtocolError::NonMinimalLength)
        } else {
            Ok(Some((big_endian(buffer.subrange(2, 10)), 8)))
        }
    } else {
        Ok(Some((short as nat, 0)))
    }
}

/// The header at the front of a buffer, if a whole one is there.
///
/// The first octet holds, from the top: the FIN bit, three reserved bits and the opcode. The
/// second holds the MASK bit and the length, or what tells where the length stands.
pub open spec fn header_at(buffer: Seq<u8>) -> Result<Option<HeaderView>, ProtocolError> {
    if buffer.len() < 2 {
        Ok(None)
    } else if buffer[0] / 16 % 8 != 0 {
        Err(ProtocolError::ReservedBits)
    } else {
        let fin = buffer[0] >= 128;
        let masked = buffer[1] >= 128;
        match OpCode::of_number(buffer[0] % 16) {
            None => Err(ProtocolError::UnknownOpCode(buffer[0] % 16)),
            Some(opcode) => match declared_len(buffer) {
                Err(e) => Err(e),
                Ok(None) => Ok(None),
                Ok(Some((len, extra))) => {
                    let mask_at = 2 + extra;
                    if len > MAX_PAYLOAD {
                        Err(ProtocolError::PayloadTooLarge(len as u64))
                    } else if opcode.controls() && len > 125 {
                        Err(ProtocolError::ControlFrameTooLarge(len as usize))
                    } else if opcode.controls() && !fin {
                        Err(ProtocolError::FragmentedControlFrame)
                    } else if masked && buffer.len() < mask_at + 4 {
                        Ok(None)
                    } else {
                        Ok(
                            Some(
                                HeaderView {
                                    fin,
                                    opcode,
                                    mask: if masked {
                                        Some(buffer.subrange(mask_at as int, mask_at as int + 4))
                                    } else {
                                        None
                                    },
                                    payload_len: len,
                                    header_len: if masked {
                                        mask_at + 4
                                    } else {
                                        mask_at
                                    },
                                },
                            ),
                        )
                    }
                },
            },
        }
    }
}

/// The view of a header that may be absent, or of the error in its place.
pub open spec fn header_result(r: Result<Option<Header>, ProtocolError>) -> Result<
    Option<HeaderView>,
    ProtocolError,
> {
    match r {
        Ok(Some(h)) => Ok(Some(h@)),
        Ok(None) => Ok(None),
        Err(e) => Err(e),
    }
}

/// Reads a number from octets, the most significant first.
fn read_big_endian(buffer: &[u8], from: usize, count: usize) -> (r: u64)
    requires
        count == 2 || count == 8,
        from + count <= buffer@.len(),
    ensures
        r == big_endian(buffer@.subrange(from as int, from + count)),
        count == 2 ==> r <= 0xffff,
{
    let ghost s = buffer@.subrange(from as int, from + count);
    let available: usize = buffer.len();
    let mut value: u64 = 0;
    let mut i: usize = 0;
    while i < count
        invariant
            i <= count,
            count == 2 || count == 8,
            from + count <= available == buffer@.len(),
            s == buffer@.subrange(from as int, from + count),
            value == big_endian(s.take(i as int)),
            value < bound(i as int),
        decreases count - i,
    {
        let octet: u8 = buffer[from + i];
        assert(s.take(i + 1).drop_last() =~= s.take(i as int));
        assert(s.take(i + 1).last() == octet);
        value = value * 256 + octet as u64;
        i += 1;
    }
    assert(s.take(i as int) =~= s);
    value
}

/// One more than the largest number that `n` octets write, for up to eight.
spec fn bound(n: int) -> int {
    if n == 8 {
        0x1_0000_0000_0000_0000
    } else {
        digest::pow256(n)
    }
}

/// Reads a header from the front of `buffer` without consuming it.
///
/// Returns `Ok(None)` when the header is not yet complete, so a caller can wait for more
/// octets. The payload itself is not required to be present.
pub fn decode_header(buffer: &[u8]) -> (r: Result<Option<Header>, ProtocolError>)
    ensures
        header_result(r) == header_at(buffer@),
{
    if buffer.len() < 2 {
        return Ok(None);
    }
    let first: u8 = buffer[0];
    let second: u8 = buffer[1];
    if first / 16 % 8 != 0 {
        // RSV1..RSV3. No extension is negotiated, so these must be zero, and a peer setting
        // one is describing a framing we would misread rather than one we can skip.
        return Err(ProtocolError::ReservedBits);
    }
    let fin = first >= 128;
    let opcode = match OpCode::from_bits(first % 16) {
        Some(opcode) => opcode,
        None => return Err(ProtocolError::UnknownOpCode(first % 16)),
    };
    let masked = second >= 128;
    let short: u8 = second % 128;
    let mut len: u64 = short as u64;
    let mut extra: usize = 0;
    if short == 126 {
        if buffer.len() < 4 {
            return Ok(None);
        }
        len = read_big_endian(buffer, 2, 2);
        extra = 2;
        if len < 126 {
            return Err(ProtocolError::NonMinimalLength);
        }
    } else if short == 127 {
        if buffer.len() < 10 {
            return Ok(None);
        }
        len = read_big_endian(buffer, 2, 8);
        extra = 8;
        if len <= 0xffff {
            return Err(ProtocolError::NonMinimalLength);
        }
    }
    if len > MAX_PAYLOAD as u64 {
        return Err(ProtocolError::PayloadTooLarge(len));
    }
    let payload_len: usize = len as usize;
    if opcode.is_control() {
        if payload_len > 125 {
            return Err(ProtocolError::ControlFrameTooLarge(payload_len));
        }
        if !fin {
            return Err(ProtocolError::FragmentedControlFrame);
        }
    }
    let mask_at: usize = 2 + extra;
    if !masked {
        return Ok(Some(Header { fin, opcode, mask: None, payload_len, header_len: mask_at }));
    }
    if buffer.len() < mask_at + 4 {
        return Ok(None);
    }
    let mask: [u8; 4] = [
        buffer[mask_at],
        buffer[mask_at + 1],
        buffer[mask_at + 2],
        buffer[mask_at + 3],
    ];
    assert(mask@ =~= buffer@.subrange(mask_at as int, mask_at + 4));
    Ok(Some(Header { fin, opcode, mask: Some(mask), payload_len, header_len: mask_at + 4 }))
}

/// The octets that carry a payload's length and whether the payload is masked. The length
/// takes the shortest form that fits.
pub open spec fn length_octets(payload_len: nat, masked: bool) -> Seq<u8> {
    let bit: int = if masked {
        128
    } else {
        0
    };
    if payload_len < 126 {
        seq![(bit + payload_len) as u8]
    } else if payload_len <= 0xffff {
        seq![(bit + 126) as u8, (payload_len / 256) as u8, (payload_len % 256) as u8]
    } else {
        seq![(bit + 127) as u8] + digest::octets_of_long(payload_len as int)
    }
}

/// The octets of a frame header.
pub open spec fn header_octets(opcode: OpCode, fin: bool, payload_len: nat, mask: Option<Seq<u8>>)
    -> Seq<u8> {
    let first: int = if fin {
        128 + opcode.number()
    } else {
        opcode.number() as int
    };
    seq![first as u8] + length_octets(payload_len, mask is Some) + (match mask {
        Some(m) => m,
        None => Seq::empty(),
    })
}

/// Appends a number as eight octets, the most significant first.
fn put_u64(out: &mut BytesMut, n: u64)
    ensures
        octets::buffered(*final(out)) == octets::buffered(*old(out)) + digest::octets_of_long(
            n as int,
        ),
{
    let octets: [u8; 8] = [
        (n / 0x100_0000_0000_0000) as u8,
        (n / 0x1_0000_0000_0000 % 256) as u8,
        (n / 0x100_0000_0000 % 256) as u8,
        (n / 0x1_0000_0000 % 256) as u8,
        (n / 0x100_0000 % 256) as u8,
        (n / 0x1_0000 % 256) as u8,
        (n / 0x100 % 256) as u8,
        (n % 256) as u8,
    ];
    assert(octets@ =~= digest::octets_of_long(n as int));
    out.extend_from_slice(octets.as_slice());
}

/// Appends what carries a payload's length and whether the payload is masked.
fn put_length(out: &mut BytesMut, payload_len: usize, masked: bool)
    ensures
        octets::buffered(*final(out)) == octets::buffered(*old(out)) + length_octets(
            payload_len as nat,
            masked,
        ),
{
    let ghost before = octets::buffered(*out);
    let bit: u8 = if masked {
        128
    } else {
        0
    };
    if payload_len < 126 {
        // Fits the short form, and the shortest form that fits is required.
        octets::put_u8(out, bit + payload_len as u8);
    } else if payload_len <= 0xffff {
        octets::put_u8(out, bit + 126);
        octets::put_u8(out, (payload_len / 256) as u8);
        octets::put_u8(out, (payload_len % 256) as u8);
    } else {
        octets::put_u8(out, bit + 127);
        put_u64(out, payload_len as u64);
    }
    assert(octets::buffered(*out) =~= before + length_octets(payload_len as nat, masked));
}

/// Appends a frame header to `out`.
pub fn encode_header(
    out: &mut BytesMut,
    opcode: OpCode,
    fin: bool,
    payload_len: usize,
    mask: Option<[u8; 4]>,
)
    ensures
        octets::buffered(*final(out)) == octets::buffered(*old(out)) + header_octets(
            opcode,
            fin,
            payload_len as nat,
            mask_view(mask),
        ),
{
    let ghost before = octets::buffered(*out);
    octets::put_u8(
        out,
        if fin {
            128 + opcode.bits()
        } else {
            opcode.bits()
        },
    );
    put_length(out, payload_len, mask.is_some());
    if let Some(mask) = mask {
        out.extend_from_slice(mask.as_slice());
    }
    assert(octets::buffered(*out) =~= before + header_octets(
        opcode,
        fin,
        payload_len as nat,
        mask_view(mask),
    ));
}

/// A payload under a masking key, the first octet of which meets the key's octet `offset`.
pub open spec fn masked(payload: Seq<u8>, mask: Seq<u8>, offset: int) -> Seq<u8> {
    Seq::new(payload.len(), |i: int| payload[i] ^ mask[(i + offset) % 4])
}

/// Applies a masking key to a payload, starting `offset` octets into the message.
///
/// Masking is its own inverse, so this both masks and unmasks. The offset matters only when
/// a payload is masked in more than one pass.
pub fn apply_mask(payload: &mut [u8], mask: [u8; 4], offset: usize)
    ensures
        final(payload)@ == masked(old(payload)@, mask@, offset as int),
{
    let ghost before = payload@;
    let shift: usize = offset % 4;
    let mut i: usize = 0;
    while i < payload.len()
        invariant
            i <= payload@.len(),
            payload@.len() == before.len(),
            before == old(payload)@,
            shift == offset % 4,
            forall|j: int|
                0 <= j < i ==> payload@[j] == before[j] ^ mask@[#[trigger] ((j + offset) % 4)],
            forall|j: int| i <= j < before.len() ==> payload@[j] == before[j],
        decreases before.len() - i,
    {
        let at: usize = (i % 4 + shift) % 4;
        assert(at == (i + offset) % 4);
        payload[i] = payload[i] ^ mask[at];
        i += 1;
    }
    assert(payload@ =~= masked(before, mask@, offset as int));
}

/// `getrandom::fill` writes octets of the system's source of randomness over the whole slice, or
/// fails; the result says which. Which octets come, and whether they do, is left open.
#[verifier::external_body]
pub(crate) fn fill_random(dest: &mut [u8]) -> (filled: bool)
    ensures
        final(dest)@.len() == old(dest)@.len(),
{
    getrandom::fill(dest).is_ok()
}

/// Four unpredictable octets for masking a client frame.
///
/// RFC 6455, section 5.3, requires these to be unpredictable: a proxy that can be made to see
/// chosen plaintext on the wire is the attack the masking exists to stop, so a counter will not
/// do. Nothing is said of which octets come back; [`drawn_key`] says what becomes of them.
pub(crate) fn masking_key() -> (r: Result<[u8; 4], Error>)
    ensures
        r matches Err(e) ==> e == Error::Entropy,
{
    let mut key: [u8; 4] = [0, 0, 0, 0];
    let filled = fill_random(&mut key);
    drawn_key(filled, key)
}

/// The masking key that a draw of randomness gives: the octets drawn, where there were any.
///
/// # Errors
///
/// Returns [`Error::Entropy`] where the operating system had no randomness to give.
pub fn drawn_key(filled: bool, octets: [u8; 4]) -> (r: Result<[u8; 4], Error>)
    ensures
        r == (if filled {
            Ok::<[u8; 4], Error>(octets)
        } else {
            Err::<[u8; 4], Error>(Error::Entropy)
        }),
{
    if filled {
        Ok(octets)
    } else {
        Err(Error::Entropy)
    }
}

// ---- What holds of headers and masks ---------------------------------------------

/// Whether a header can be sent: its payload is no longer than a peer accepts, and a control
/// frame is short and whole.
pub open spec fn sendable(opcode: OpCode, fin: bool, payload_len: nat, mask: Option<Seq<u8>>)
    -> bool {
    &&& payload_len <= MAX_PAYLOAD
    &&& opcode.controls() ==> payload_len <= 125 && fin
    &&& mask matches Some(m) ==> m.len() == 4
}

/// Two octets, the most significant first.
proof fn lemma_big_endian_short(s: Seq<u8>)
    requires
        s.len() == 2,
    ensures
        big_endian(s) == s[0] * 256 + s[1],
{
    reveal_with_fuel(big_endian, 3);
}

/// The first octets of a number are the number without its lower octets.
proof fn lemma_big_endian_part(n: int, count: int)
    requires
        0 <= n < 0x1_0000_0000_0000_0000,
        1 <= count <= 8,
    ensures
        big_endian(digest::octets_of_long(n).take(count)) == n / digest::pow256(8 - count),
    decreases count,
{
    let s = digest::octets_of_long(n);
    let part = s.take(count);
    assert(part.last() == s[count - 1]);
    if count == 1 {
        assert(part.drop_last() =~= Seq::<u8>::empty());
        assert(big_endian(part.drop_last()) == 0);
    } else {
        lemma_big_endian_part(n, count - 1);
        assert(part.drop_last() =~= s.take(count - 1));
        let unit = digest::pow256(8 - count);
        assert(digest::pow256(9 - count) == unit * 256);
        assert(n / (unit * 256) * 256 + n / unit % 256 == n / unit) by {
            vstd::arithmetic::div_mod::lemma_div_denominator(n, unit, 256);
            vstd::arithmetic::div_mod::lemma_fundamental_div_mod(n / unit, 256);
        }
    }
}

/// Eight octets, the most significant first.
proof fn lemma_big_endian_long(n: int)
    requires
        0 <= n < 0x1_0000_0000_0000_0000,
    ensures
        big_endian(digest::octets_of_long(n)) == n,
{
    lemma_big_endian_part(n, 8);
    assert(digest::octets_of_long(n).take(8) =~= digest::octets_of_long(n));
}

/// The length that a header writes is the length that a reader finds, and it is found as soon as
/// all of its octets are there.
proof fn lemma_declared_len(first: u8, len: nat, masked: bool, rest: Seq<u8>)
    requires
        len < 0x1_0000_0000_0000_0000,
    ensures
        ({
            let length = length_octets(len, masked);
            let buffer = seq![first] + length + rest;
            &&& declared_len(buffer) == Ok::<Option<(nat, nat)>, ProtocolError>(
                Some((len, (length.len() - 1) as nat)),
            )
            &&& (buffer[1] >= 128) == masked
            &&& forall|k: int|
                2 <= k < 1 + length.len() ==> #[trigger] declared_len(buffer.take(k)) == Ok::<
                    Option<(nat, nat)>,
                    ProtocolError,
                >(None)
        }),
{
    let length = length_octets(len, masked);
    let buffer = seq![first] + length + rest;
    assert(buffer[1] == length[0]);
    if len >= 126 && len <= 0xffff {
        let s = buffer.subrange(2, 4);
        lemma_big_endian_short(s);
        assert(s[0] == length[1] && s[1] == length[2]);
    } else if len > 0xffff {
        assert(buffer.subrange(2, 10) =~= digest::octets_of_long(len as int));
        lemma_big_endian_long(len as int);
    }
}

/// A header that is written is read back, whatever follows it: the two agree on every field.
pub proof fn law_headers_round_trip(
    opcode: OpCode,
    fin: bool,
    payload_len: nat,
    mask: Option<Seq<u8>>,
    rest: Seq<u8>,
)
    requires
        sendable(opcode, fin, payload_len, mask),
    ensures
        ({
            let header = header_octets(opcode, fin, payload_len, mask);
            header_at(header + rest) == Ok::<Option<HeaderView>, ProtocolError>(
                Some(HeaderView { fin, opcode, mask, payload_len, header_len: header.len() }),
            )
        }),
{
    let header = header_octets(opcode, fin, payload_len, mask);
    let buffer = header + rest;
    let length = length_octets(payload_len, mask is Some);
    let after = (match mask {
        Some(m) => m,
        None => Seq::empty(),
    });
    assert(buffer =~= seq![buffer[0]] + length + (after + rest));
    lemma_declared_len(buffer[0], payload_len, mask is Some, after + rest);
    match mask {
        Some(m) => {
            let at = 1 + length.len() as int;
            assert(buffer.subrange(at, at + 4) =~= m);
        },
        None => {},
    }
}

/// A header that has not all arrived is waited for: no proper part of one is read as a header,
/// and none is refused.
pub proof fn law_incomplete_headers_wait(
    opcode: OpCode,
    fin: bool,
    payload_len: nat,
    mask: Option<Seq<u8>>,
    have: int,
)
    requires
        sendable(opcode, fin, payload_len, mask),
        0 <= have < header_octets(opcode, fin, payload_len, mask).len(),
    ensures
        header_at(header_octets(opcode, fin, payload_len, mask).take(have)) == Ok::<
            Option<HeaderView>,
            ProtocolError,
        >(None),
{
    let header = header_octets(opcode, fin, payload_len, mask);
    let part = header.take(have);
    let length = length_octets(payload_len, mask is Some);
    let after = (match mask {
        Some(m) => m,
        None => Seq::empty(),
    });
    if have >= 2 {
        if have < 1 + length.len() {
            assert(header =~= seq![header[0]] + length + after);
            lemma_declared_len(header[0], payload_len, mask is Some, after);
            assert(declared_len(header.take(have)) == Ok::<Option<(nat, nat)>, ProtocolError>(None));
        } else {
            let begun = after.take(have - 1 - length.len());
            assert(part =~= seq![part[0]] + length + begun);
            lemma_declared_len(part[0], payload_len, mask is Some, begun);
        }
    }
}

/// Once a header is read or refused, octets that follow change nothing of it.
pub proof fn law_headers_are_decided_once(a: Seq<u8>, b: Seq<u8>)
    ensures
        header_at(a) != Ok::<Option<HeaderView>, ProtocolError>(None) ==> header_at(a + b)
            == header_at(a),
{
    let whole = a + b;
    if a.len() >= 2 {
        assert(whole[0] == a[0] && whole[1] == a[1]);
        if a.len() >= 4 {
            assert(whole.subrange(2, 4) =~= a.subrange(2, 4));
        }
        if a.len() >= 10 {
            assert(whole.subrange(2, 10) =~= a.subrange(2, 10));
        }
        if let Ok(Some((len, extra))) = declared_len(a) {
            let at = 2 + extra as int;
            if at + 4 <= a.len() {
                assert(whole.subrange(at, at + 4) =~= a.subrange(at, at + 4));
            }
        }
    }
}

/// A header that is accepted lies within the octets it was read from, and it takes fourteen
/// octets at most. The payload it declares is within the limit, and a control frame's payload
/// within its own.
pub proof fn law_accepted_headers_are_bounded(buffer: Seq<u8>)
    ensures
        header_at(buffer) matches Ok(Some(h)) ==> {
            &&& 2 <= h.header_len <= 14
            &&& h.header_len <= buffer.len()
            &&& h.payload_len <= MAX_PAYLOAD
            &&& h.opcode.controls() ==> h.payload_len <= 125 && h.fin
            &&& h.mask matches Some(m) ==> m.len() == 4
        },
{
}

/// Masking is its own inverse.
pub proof fn law_masking_is_its_own_inverse(payload: Seq<u8>, mask: Seq<u8>, offset: int)
    ensures
        masked(masked(payload, mask, offset), mask, offset) == payload,
{
    assert forall|i: int| 0 <= i < payload.len() implies #[trigger] masked(
        masked(payload, mask, offset),
        mask,
        offset,
    )[i] == payload[i] by {
        let x = payload[i];
        let m = mask[(i + offset) % 4];
        assert((x ^ m) ^ m == x) by (bit_vector);
    }
    assert(masked(masked(payload, mask, offset), mask, offset) =~= payload);
}

/// Masking in two passes is masking in one, so long as the second pass takes up where the first
/// stopped.
pub proof fn law_masking_in_two_passes(head: Seq<u8>, tail: Seq<u8>, mask: Seq<u8>, offset: int)
    ensures
        masked(head + tail, mask, offset) == masked(head, mask, offset) + masked(
            tail,
            mask,
            offset + head.len(),
        ),
{
    assert(masked(head + tail, mask, offset) =~= masked(head, mask, offset) + masked(
        tail,
        mask,
        offset + head.len(),
    ));
}

} // verus!
