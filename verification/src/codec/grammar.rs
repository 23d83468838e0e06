//! Which header lines there are, and what they say: the grammar of RFC 3080 and RFC 3081, read as
//! words between single spaces.

use crate::codec;
use crate::codec::{DataHeader, DecoderView, Decoded, Header};
use crate::decimal;
use crate::error::Error;
use crate::frame::{DataView, FrameKind, FrameView, SeqView};
use vstd::prelude::*;

verus! {

/// The words of a line, which are parted by single spaces.
pub open spec fn words(line: Seq<u8>) -> Seq<Seq<u8>>
    decreases line.len(),
    via words_decreases
{
    let p = codec::position(line, 0x20);
    if p == line.len() {
        seq![line]
    } else {
        seq![line.take(p)] + words(line.skip(p + 1))
    }
}

#[via_fn]
proof fn words_decreases(line: Seq<u8>) {
    codec::lemma_position(line, 0x20);
}

/// Whether a word writes a number in decimal.
pub open spec fn is_number(word: Seq<u8>, n: nat) -> bool {
    &&& word.len() > 0
    &&& forall|i: int| 0 <= i < word.len() ==> 0x30 <= #[trigger] word[i] <= 0x39
    &&& decimal::decimal_value(word) == n
}

/// The word that names a kind of data frame.
pub open spec fn keyword(kind: FrameKind) -> Seq<u8> {
    match kind {
        FrameKind::Msg => seq![0x4d, 0x53, 0x47],
        FrameKind::Rpy => seq![0x52, 0x50, 0x59],
        FrameKind::Error => seq![0x45, 0x52, 0x52],
        FrameKind::Ans => seq![0x41, 0x4e, 0x53],
        FrameKind::Nul => seq![0x4e, 0x55, 0x4c],
    }
}

/// Whether a line is the header of a data frame: its kind, its channel, its message number, an
/// asterisk or a full stop, its sequence number, its size and, in an `ANS` alone, its answer
/// number.
pub open spec fn says_data(line: Seq<u8>, h: DataHeader, max_frame_size: u32) -> bool {
    let w = words(line);
    &&& w.len() == (if h.kind == FrameKind::Ans {
        7int
    } else {
        6int
    })
    &&& w[0] == keyword(h.kind)
    &&& is_number(w[1], h.channel as nat) && h.channel <= 2147483647
    &&& is_number(w[2], h.msgno as nat) && h.msgno <= 2147483647
    &&& w[3] == seq![
        if h.more {
            0x2au8
        } else {
            0x2eu8
        },
    ]
    &&& is_number(w[4], h.seqno as nat)
    &&& is_number(w[5], h.size as nat) && h.size <= 2147483647 && h.size <= max_frame_size
    &&& match h.ansno {
        Some(n) => h.kind == FrameKind::Ans && is_number(w[6], n as nat) && n <= 2147483647,
        None => h.kind != FrameKind::Ans,
    }
}

/// Whether a line is the header of a `SEQ` frame: its channel, the octet acknowledged and the
/// window.
pub open spec fn says_flow(line: Seq<u8>, f: SeqView) -> bool {
    let w = words(line);
    &&& w.len() == 4
    &&& w[0] == seq![0x53u8, 0x45, 0x51]
    &&& is_number(w[1], f.channel as nat) && f.channel <= 2147483647
    &&& is_number(w[2], f.ackno as nat)
    &&& is_number(w[3], f.window as nat) && f.window <= 2147483647
}

/// A number is written in decimal: each digit behind others makes ten times as much of them, and
/// is worth its distance from `0`. Every number is written without a zero in front, but for zero
/// itself, and a digit is written by the octet that many behind that of `0`.
pub proof fn law_numbers_are_decimal(word: Seq<u8>, digit: u8, n: nat)
    requires
        0x30 <= digit <= 0x39,
    ensures
        decimal::decimal_value(Seq::empty()) == 0,
        decimal::decimal_value(word.push(digit)) == 10 * decimal::decimal_value(word) + (digit
            - 0x30),
        is_number(decimal::decimal(n), n),
        n > 0 ==> decimal::decimal(n)[0] != 0x30,
        n == 0 ==> decimal::decimal(n) == seq![0x30u8],
{
    assert(word.push(digit).drop_last() =~= word);
    lemma_decimal_is_number(n);
}

proof fn lemma_decimal_is_number(n: nat)
    ensures
        is_number(decimal::decimal(n), n),
        n > 0 ==> decimal::decimal(n)[0] != 0x30,
    decreases n,
{
    decimal::lemma_decimal(n);
    assert forall|i: int| 0 <= i < decimal::decimal(n).len() implies 0x30
        <= #[trigger] decimal::decimal(n)[i] <= 0x39 by {
        assert(decimal::is_digit(decimal::decimal(n)[i]));
    }
    if n >= 10 {
        lemma_decimal_is_number(n / 10);
    }
}

/// A word is read as a number exactly where it writes one that is not too large. Where it is too
/// large, or no number, the field is named.
pub proof fn law_numbers_are_read(word: Seq<u8>, name: &'static str, max: u32)
    ensures
        match codec::number(word, name, max) {
            Ok(n) => word.len() > 0 ==> is_number(word, n) && n <= max,
            Err(e) => e == (Error::InvalidDigit { field: name }) || e == (Error::ValueOutOfRange {
                field: name,
                max,
            }),
        },
        forall|n: nat|
            is_number(word, n) ==> codec::number(word, name, max) == (if n <= max {
                Ok::<nat, Error>(n)
            } else {
                Err::<nat, Error>(Error::ValueOutOfRange { field: name, max })
            }),
    decreases word.len(),
{
    if word.len() > 0 {
        let init = word.drop_last();
        law_numbers_are_read(init, name, max);
        if init.len() == 0 {
            assert(decimal::decimal_value(init) == 0);
        }
        assert forall|n: nat| is_number(word, n) implies codec::number(word, name, max) == (if n
            <= max {
            Ok::<nat, Error>(n)
        } else {
            Err::<nat, Error>(Error::ValueOutOfRange { field: name, max })
        }) by {
            let v = decimal::decimal_value(init);
            assert(0x30 <= word[word.len() - 1] <= 0x39);
            if init.len() > 0 {
                assert forall|i: int| 0 <= i < init.len() implies 0x30 <= #[trigger] init[i]
                    <= 0x39 by {
                    assert(init[i] == word[i]);
                }
                assert(is_number(init, v));
            }
        }
        if let Ok(n) = codec::number(word, name, max) {
            assert forall|i: int| 0 <= i < word.len() implies 0x30 <= #[trigger] word[i]
                <= 0x39 by {
                if i < init.len() {
                    assert(word[i] == init[i]);
                }
            }
        }
    }
}

/// The words of what is left of a line, if anything is.
spec fn words_left(rest: Option<Seq<u8>>) -> Seq<Seq<u8>> {
    match rest {
        None => Seq::empty(),
        Some(s) => words(s),
    }
}

proof fn lemma_words_left(rest: Option<Seq<u8>>, name: &'static str)
    ensures
        rest is Some ==> words_left(rest).len() > 0,
        match codec::field(rest, name) {
            Ok(word) => words_left(rest).len() > 0 && word == words_left(rest)[0] && word.len() > 0,
            Err(_) => words_left(rest).len() == 0 || words_left(rest)[0].len() == 0,
        },
        rest is Some ==> words_left(codec::after_field(rest)) == words_left(rest).drop_first(),
{
    if let Some(s) = rest {
        let p = codec::position(s, 0x20);
        codec::lemma_position(s, 0x20);
        if p < s.len() {
            assert(words(s).drop_first() =~= words(s.skip(p + 1)));
        } else {
            assert(s.take(p) =~= s);
            assert(words(s).drop_first() =~= Seq::empty());
        }
    }
}

proof fn lemma_numeric(rest: Option<Seq<u8>>, name: &'static str, max: u32)
    ensures
        forall|n: u32|
            codec::numeric(rest, name, max) == Ok::<u32, Error>(n) <==> words_left(rest).len() > 0
                && #[trigger] is_number(words_left(rest)[0], n as nat) && n <= max,
        codec::numeric(rest, name, max) matches Ok(n) ==> is_number(words_left(rest)[0], n as nat)
            && n <= max,
{
    lemma_words_left(rest, name);
    if let Ok(word) = codec::field(rest, name) {
        law_numbers_are_read(word, name, max);
    }
}

proof fn lemma_continuation(rest: Option<Seq<u8>>)
    ensures
        forall|more: bool|
            codec::continuation_field(rest) == Ok::<bool, Error>(more) <==> words_left(rest).len()
                > 0 && words_left(rest)[0] == seq![
                if more {
                    0x2au8
                } else {
                    0x2eu8
                },
            ],
{
    lemma_words_left(rest, "more");
    if let Ok(word) = codec::field(rest, "more") {
        if word.len() == 1 {
            assert(word =~= seq![word[0]]);
        }
        assert forall|more: bool|
            codec::continuation_field(rest) == Ok::<bool, Error>(more) <==> words_left(rest).len()
                > 0 && words_left(rest)[0] == seq![
                if more {
                    0x2au8
                } else {
                    0x2eu8
                },
            ] by {
            let one = seq![
                if more {
                    0x2au8
                } else {
                    0x2eu8
                },
            ];
            assert(one[0] == (if more {
                0x2au8
            } else {
                0x2eu8
            }));
        }
    }
}

/// The words of a line are its first and those behind it, where a space follows the first.
proof fn lemma_first_word(line: Seq<u8>, k: int)
    requires
        0 <= k < line.len(),
        line[k] == 0x20,
        forall|i: int| 0 <= i < k ==> line[i] != 0x20,
    ensures
        words(line) == seq![line.take(k)] + words(line.skip(k + 1)),
{
    codec::lemma_position(line, 0x20);
    assert(codec::same_place(k) == codec::position(line, 0x20));
}

proof fn lemma_keywords()
    ensures
        forall|k: FrameKind| #[trigger] k.token() == keyword(k),
        forall|a: FrameKind, b: FrameKind| #[trigger] a.token() == #[trigger] b.token() ==> a == b,
        forall|k: FrameKind| #[trigger] FrameKind::of_token(k.token()) == Some(k),
        forall|k: FrameKind| #[trigger] k.token() != SeqView::token(),
{
    assert forall|a: FrameKind, b: FrameKind| #[trigger] a.token() == #[trigger] b.token() implies a
        == b by {
        assert(a.token()[0] == b.token()[0] && a.token()[1] == b.token()[1]);
    }
    assert forall|k: FrameKind| #[trigger] FrameKind::of_token(k.token()) == Some(k) by {
        assert(k.token() == k.token());
        let found = choose|j: FrameKind| #[trigger] j.token() == k.token();
        assert(found.token() == k.token());
    }
    assert forall|k: FrameKind| #[trigger] k.token() != SeqView::token() by {
        assert(k.token()[1] != SeqView::token()[1] || k.token()[0] != SeqView::token()[0]);
    }
}

/// What the words of a line say of a data frame, once its kind is known.
#[verifier::rlimit(40)]
#[verifier::spinoff_prover]
proof fn lemma_data_fields(kind: FrameKind, s: Seq<u8>, max_frame_size: u32, h: DataHeader)
    requires
        h.kind == kind,
    ensures
        codec::data_fields(kind, Some(s), max_frame_size) == Ok::<DataHeader, Error>(h) <==> {
            let w = words(s);
            &&& w.len() == (if kind == FrameKind::Ans {
                6int
            } else {
                5int
            })
            &&& is_number(w[0], h.channel as nat) && h.channel <= 2147483647
            &&& is_number(w[1], h.msgno as nat) && h.msgno <= 2147483647
            &&& w[2] == seq![
                if h.more {
                    0x2au8
                } else {
                    0x2eu8
                },
            ]
            &&& is_number(w[3], h.seqno as nat)
            &&& is_number(w[4], h.size as nat) && h.size <= 2147483647 && h.size <= max_frame_size
            &&& match h.ansno {
                Some(n) => kind == FrameKind::Ans && is_number(w[5], n as nat) && n <= 2147483647,
                None => kind != FrameKind::Ans,
            }
        },
{
    reveal(codec::data_fields);
    let r0 = Some(s);
    let r1 = codec::after_field(r0);
    let r2 = codec::after_field(r1);
    let r3 = codec::after_field(r2);
    let r4 = codec::after_field(r3);
    let r5 = codec::after_field(r4);
    let r6 = codec::after_field(r5);
    lemma_words_left(r0, "channel");
    lemma_words_left(r1, "msgno");
    lemma_words_left(r2, "more");
    lemma_words_left(r3, "seqno");
    lemma_words_left(r4, "size");
    lemma_words_left(r5, "ansno");
    lemma_words_left(r6, "");
    lemma_numeric(r0, "channel", 2147483647);
    lemma_numeric(r1, "msgno", 2147483647);
    lemma_continuation(r2);
    lemma_numeric(r3, "seqno", 4294967295);
    lemma_numeric(r4, "size", 2147483647);
    lemma_numeric(r5, "ansno", 2147483647);
    let w = words(s);
    assert(words_left(r1).len() > 0 ==> words_left(r1)[0] == w[1]);
    assert(words_left(r2).len() > 0 ==> words_left(r2)[0] == w[2]);
    assert(words_left(r3).len() > 0 ==> words_left(r3)[0] == w[3]);
    assert(words_left(r4).len() > 0 ==> words_left(r4)[0] == w[4]);
    assert(words_left(r5).len() > 0 ==> words_left(r5)[0] == w[5]);
}

proof fn lemma_seq_fields(s: Seq<u8>, f: SeqView)
    ensures
        codec::seq_fields(Some(s)) == Ok::<SeqView, Error>(f) <==> {
            let w = words(s);
            &&& w.len() == 3
            &&& is_number(w[0], f.channel as nat) && f.channel <= 2147483647
            &&& is_number(w[1], f.ackno as nat)
            &&& is_number(w[2], f.window as nat) && f.window <= 2147483647
        },
{
    reveal(codec::seq_fields);
    let r0 = Some(s);
    let r1 = codec::after_field(r0);
    let r2 = codec::after_field(r1);
    let r3 = codec::after_field(r2);
    lemma_words_left(r0, "channel");
    lemma_words_left(r1, "ackno");
    lemma_words_left(r2, "window");
    lemma_words_left(r3, "");
    lemma_numeric(r0, "channel", 2147483647);
    lemma_numeric(r1, "ackno", 4294967295);
    lemma_numeric(r2, "window", 2147483647);
    let w = words(s);
    assert(words_left(r1).len() > 0 ==> words_left(r1)[0] == w[1]);
    assert(words_left(r2).len() > 0 ==> words_left(r2)[0] == w[2]);
}

/// A line is read as the header of a data frame exactly where its words say so.
pub proof fn law_data_headers_are_their_words(line: Seq<u8>, max_frame_size: u32, h: DataHeader)
    ensures
        codec::header_line(line, max_frame_size) == Ok::<Header, Error>(Header::Data(h))
            <==> says_data(line, h, max_frame_size),
{
    lemma_keywords();
    lemma_three(line);
    let s = line.skip(4);
    lemma_data_fields(h.kind, s, max_frame_size, h);
    if codec::header_line(line, max_frame_size) == Ok::<Header, Error>(Header::Data(h)) {
        let kind = FrameKind::of_token(line.take(3))->0;
        assert(kind.token() == line.take(3));
        assert(kind == h.kind) by {
            reveal(codec::data_fields);
        }
        lemma_token_word(line, kind.token());
    }
    if says_data(line, h, max_frame_size) {
        assert(h.kind.token() == words(line)[0]);
        lemma_word_token(line, h.kind.token());
    }
}

/// A line is read as the header of a `SEQ` frame exactly where its words say so.
pub proof fn law_flow_headers_are_their_words(line: Seq<u8>, max_frame_size: u32, f: SeqView)
    ensures
        codec::header_line(line, max_frame_size) == Ok::<Header, Error>(Header::Flow(f))
            <==> says_flow(line, f),
{
    let s = line.skip(4);
    lemma_seq_fields(s, f);
    let token = SeqView::token();
    assert(token =~= seq![0x53u8, 0x45, 0x51]);
    if codec::header_line(line, max_frame_size) == Ok::<Header, Error>(Header::Flow(f)) {
        lemma_token_word(line, token);
    }
    if says_flow(line, f) {
        lemma_word_token(line, token);
    }
}

proof fn lemma_three(line: Seq<u8>)
    ensures
        line.len() >= 3 ==> line.take(3).len() == 3,
{
}

/// A line that begins with three octets and a space has these octets as its first word.
proof fn lemma_token_word(line: Seq<u8>, token: Seq<u8>)
    requires
        line.len() > 3,
        line[3] == 0x20,
        line.take(3) == token,
        token.len() == 3,
        token[0] != 0x20 && token[1] != 0x20 && token[2] != 0x20,
    ensures
        words(line) == seq![token] + words(line.skip(4)),
{
    assert(line[0] == token[0] && line[1] == token[1] && line[2] == token[2]) by {
        assert(line.take(3)[0] == line[0] && line.take(3)[1] == line[1] && line.take(3)[2]
            == line[2]);
    }
    lemma_first_word(line, 3);
}

/// A line of more than one word, the first of them three octets, begins with these and a space.
proof fn lemma_word_token(line: Seq<u8>, token: Seq<u8>)
    requires
        words(line).len() > 1,
        words(line)[0] == token,
        token.len() == 3,
    ensures
        line.len() > 3,
        line[3] == 0x20,
        line.take(3) == token,
        words(line) == seq![token] + words(line.skip(4)),
{
    codec::lemma_position(line, 0x20);
    let p = codec::position(line, 0x20);
    assert(p < line.len());
    assert(words(line)[0] == line.take(p));
    assert(line.take(p).len() == p);
    assert(p == 3);
}

/// Nothing else is the header of a frame: a line that is read is that of a data frame or that of a
/// `SEQ` frame, and one that says neither is refused. A first word that names no kind of frame is
/// refused as such.
pub proof fn law_other_lines_are_refused(line: Seq<u8>, max_frame_size: u32)
    ensures
        (forall|h: DataHeader| !#[trigger] says_data(line, h, max_frame_size)) && (forall|
            f: SeqView,
        |
            !#[trigger] says_flow(line, f)) <==> codec::header_line(line, max_frame_size) is Err,
        words(line).len() > 1 && words(line)[0].len() == 3 && words(line)[0] != seq![
            0x53u8,
            0x45,
            0x51,
        ] && (forall|k: FrameKind| words(line)[0] != #[trigger] keyword(k)) ==> codec::header_line(
            line,
            max_frame_size,
        ) == Err::<Header, Error>(Error::UnknownFrameType),
{
    match codec::header_line(line, max_frame_size) {
        Ok(Header::Data(h)) => law_data_headers_are_their_words(line, max_frame_size, h),
        Ok(Header::Flow(f)) => law_flow_headers_are_their_words(line, max_frame_size, f),
        Err(_) => {
            assert forall|h: DataHeader| !#[trigger] says_data(line, h, max_frame_size) by {
                law_data_headers_are_their_words(line, max_frame_size, h);
            }
            assert forall|f: SeqView| !#[trigger] says_flow(line, f) by {
                law_flow_headers_are_their_words(line, max_frame_size, f);
            }
        },
    }
    let first = words(line)[0];
    if words(line).len() > 1 && first.len() == 3 {
        lemma_word_token(line, first);
        lemma_keywords();
        if forall|k: FrameKind| first != #[trigger] keyword(k) {
            assert forall|k: FrameKind| first != #[trigger] k.token() by {
                assert(first != keyword(k));
            }
        }
        assert(SeqView::token() =~= seq![0x53u8, 0x45, 0x51]);
    }
}

/// A frame stands on the wire as its header line, its payload and `END`, each line ended by a
/// carriage return and a line feed, and the header line is the one that says what the frame is.
pub proof fn law_frames_stand_on_the_wire(f: DataView, seq: SeqView)
    ensures
        f.wire() == f.header() + seq![0x0du8, 0x0a] + f.payload + seq![
            0x45u8,
            0x4e,
            0x44,
            0x0d,
            0x0a,
        ],
        seq.wire() == seq.header() + seq![0x0du8, 0x0a],
        f.valid() ==> says_data(
            f.header(),
            DataHeader {
                kind: f.kind,
                channel: f.channel,
                msgno: f.msgno,
                more: f.more,
                seqno: f.seqno,
                size: f.payload.len() as u32,
                ansno: f.ansno,
            },
            2147483647,
        ),
        seq.valid() ==> says_flow(seq.header(), seq),
{
    assert(crate::frame::TRAILER@ =~= seq![0x45u8, 0x4e, 0x44, 0x0d, 0x0a]);
    let h = DataHeader {
        kind: f.kind,
        channel: f.channel,
        msgno: f.msgno,
        more: f.more,
        seqno: f.seqno,
        size: f.payload.len() as u32,
        ansno: f.ansno,
    };
    if f.valid() {
        codec::lemma_data_header_shape(f);
        codec::lemma_data_header(f, 2147483647);
        law_data_headers_are_their_words(f.header(), 2147483647, h);
    }
    if seq.valid() {
        codec::lemma_seq_header(seq, 2147483647);
        law_flow_headers_are_their_words(seq.header(), 2147483647, seq);
    }
}

/// A payload is taken once it has come with its trailer, and only with the right one: `END`, a
/// carriage return and a line feed right behind as many octets as the header announced.
pub proof fn law_payloads_end_in_their_trailer(d: DecoderView, header: DataHeader, buf: Seq<u8>)
    ensures
        ({
            let size = header.size as int;
            let ended = buf.len() >= size + 5 && buf[size] == 0x45 && buf[size + 1] == 0x4e
                && buf[size + 2] == 0x44 && buf[size + 3] == 0x0d && buf[size + 4] == 0x0a;
            match d.body(header, buf) {
                Ok(x) => {
                    &&& buf.len() < size + 5 ==> x.frame is None && x.rest == buf
                        && x.decoder.pending == Some(header)
                    &&& buf.len() >= size + 5 ==> ended && x.rest == buf.skip(size + 5)
                        && x.decoder.pending is None && x.frame == Some(
                        FrameView::Data(
                            DataView {
                                kind: header.kind,
                                channel: header.channel,
                                msgno: header.msgno,
                                more: header.more,
                                seqno: header.seqno,
                                ansno: header.ansno,
                                payload: buf.take(size),
                            },
                        ),
                    )
                    &&& x.decoder.max_frame_size == d.max_frame_size
                },
                Err(e) => buf.len() >= size + 5 && !ended && e == Error::MissingTrailer,
            }
        }),
{
    let size = header.size as int;
    if buf.len() >= size + 5 {
        let tail = buf.subrange(size, size + 5);
        assert(crate::frame::TRAILER@ =~= seq![0x45u8, 0x4e, 0x44, 0x0d, 0x0a]);
        assert(tail =~= seq![tail[0], tail[1], tail[2], tail[3], tail[4]]);
        assert(tail[0] == buf[size] && tail[1] == buf[size + 1] && tail[2] == buf[size + 2]
            && tail[3] == buf[size + 3] && tail[4] == buf[size + 4]);
    }
}

/// A header line ends at its first line feed, which has to follow a carriage return and to come
/// within ninety-eight octets. Until it has come, more is waited for.
pub proof fn law_header_lines_end_soon(buf: Seq<u8>, max_frame_size: u32)
    ensures
        ({
            let lf = codec::position(buf, 0x0a);
            match codec::leading_header(buf, max_frame_size) {
                Ok(None) => lf == buf.len() && buf.len() < 98,
                Ok(Some((h, n))) => lf < 98 && n == lf + 1 && buf[lf - 1] == 0x0d
                    && codec::header_line(buf.take(lf - 1), max_frame_size) == Ok::<
                    Header,
                    Error,
                >(h),
                Err(e) => {
                    &&& lf >= 98 ==> e == (Error::HeaderTooLong { limit: 98 })
                    &&& lf < 98 ==> lf < buf.len()
                    &&& lf < 98 && (lf == 0 || buf[lf - 1] != 0x0d) ==> e
                        == Error::BareNewlineInHeader
                    &&& lf < 98 && lf > 0 && buf[lf - 1] == 0x0d ==> codec::header_line(
                        buf.take(lf - 1),
                        max_frame_size,
                    ) == Err::<Header, Error>(e)
                },
            }
        }),
{
    let window = if buf.len() < 98 {
        buf
    } else {
        buf.take(98)
    };
    let lf = codec::position(buf, 0x0a);
    let p = codec::position(window, 0x0a);
    codec::lemma_position(buf, 0x0a);
    codec::lemma_position(window, 0x0a);
    if lf < 98 {
        assert forall|j: int| 0 <= j < lf implies window[j] != 0x0a by {
            assert(window[j] == buf[j]);
        }
        assert(lf < window.len() ==> window[lf] == buf[lf]);
        assert(codec::same_place(lf) == p);
    } else {
        assert forall|j: int| 0 <= j < 98 implies window[j] != 0x0a by {
            assert(window[j] == buf[j]);
        }
        assert(codec::same_place(98) == p);
    }
}

/// Taking a frame off what has come depends on what was waited for: a payload, if a header was
/// read before, and a header otherwise. A `SEQ` frame is whole with its header.
pub proof fn law_headers_come_first(d: DecoderView, buf: Seq<u8>)
    ensures
        d.pending matches Some(header) ==> d.decode(buf) == d.body(header, buf),
        d.pending is None ==> match codec::leading_header(buf, d.max_frame_size) {
            Err(e) => d.decode(buf) == Err::<Decoded, Error>(e),
            Ok(None) => d.decode(buf) matches Ok(x) && x.frame is None && x.rest == buf && x.decoder
                == d,
            Ok(Some((Header::Flow(f), n))) => d.decode(buf) matches Ok(x) && x.frame == Some(
                FrameView::Flow(f),
            ) && x.rest == buf.skip(n) && x.decoder == d,
            Ok(Some((Header::Data(h), n))) => d.decode(buf) == d.body(h, buf.skip(n)),
        },
{
}

} // verus!
