//! Minimal MIME splitting for BEEP payloads.
//!
//! A BEEP payload is MIME: entity headers, a blank line, then the body. This module does
//! only what channel-management messages need: separate the two halves and look a header
//! up. Full MIME handling belongs to a layer above this one.
//!
//! A payload with no headers is all body, and `Content-Type` defaults to
//! [`DEFAULT_CONTENT_TYPE`].

use crate::codec;
use crate::frame::{CR, LF};
use crate::text;
use vstd::prelude::*;
use vstd::string::*;
use vstd::utf8;

verus! {

/// The `Content-Type` entity header name.
pub const CONTENT_TYPE: &'static str = "Content-Type";

/// The content type assumed when no `Content-Type` header is present.
pub const DEFAULT_CONTENT_TYPE: &'static str = "application/octet-stream";

/// The content type BEEP channel-management messages use.
pub const BEEP_XML: &'static str = "application/beep+xml";

/// The octet between a header's name and its value: `:`.
pub const COLON: u8 = 0x3a;

/// The entity headers and the body of a payload.
pub open spec fn parts(payload: Seq<u8>) -> (Seq<u8>, Seq<u8>) {
    if text::begins(payload, seq![CR, LF]) {
        (Seq::empty(), payload.skip(2))
    } else {
        match text::find(payload, seq![CR, LF, CR, LF]) {
            Some(i) => (payload.take(i), payload.skip(i + 4)),
            None => (Seq::empty(), payload),
        }
    }
}

/// A line without the carriage return it may end in.
pub open spec fn without_cr(line: Seq<u8>) -> Seq<u8> {
    if line.len() > 0 && line.last() == CR {
        line.drop_last()
    } else {
        line
    }
}

/// The value a header line gives to `name`, if it speaks of it.
pub open spec fn line_value(line: Seq<u8>, name: Seq<u8>) -> Option<Seq<u8>> {
    let colon = codec::position(line, COLON);
    if colon < line.len() && text::same_but_case(line.take(colon), name) {
        Some(text::trimmed_blank(line.skip(colon + 1)))
    } else {
        None
    }
}

/// The value of the first header line that speaks of `name`.
pub open spec fn header_value(headers: Seq<u8>, name: Seq<u8>) -> Option<Seq<u8>>
    decreases headers.len(),
{
    let end = codec::position(headers, LF);
    match line_value(without_cr(headers.take(end)), name) {
        Some(value) => Some(value),
        None => if 0 <= end < headers.len() {
            header_value(headers.skip(end + 1), name)
        } else {
            None
        },
    }
}

/// Whether a payload declares itself to be a channel-management message.
pub open spec fn is_beep_xml(payload: Seq<u8>) -> bool {
    match header_value(parts(payload).0, CONTENT_TYPE.spec_bytes()) {
        Some(value) => text::same_but_case(value, BEEP_XML.spec_bytes()),
        None => false,
    }
}

/// The text of a payload that carries a channel-management document.
pub open spec fn beep_xml_text(document: Seq<char>) -> Seq<char> {
    CONTENT_TYPE@ + ": "@ + BEEP_XML@ + "\r\n\r\n"@ + document
}

/// Starts the text of a payload that carries a channel-management document.
pub(crate) fn push_beep_xml_headers(out: &mut String)
    ensures
        final(out)@ == old(out)@ + beep_xml_text(Seq::empty()),
{
    let ghost before = out@;
    out.push_str(CONTENT_TYPE);
    out.push_str(": ");
    out.push_str(BEEP_XML);
    out.push_str("\r\n\r\n");
    assert(out@ =~= before + beep_xml_text(Seq::empty()));
}

/// Splits a payload into its entity headers and its body.
///
/// Three shapes are recognised:
///
/// - `headers CRLF CRLF body`: the normal case, headers are returned without the blank line;
/// - `CRLF body`: MIME enabled but no headers to emit, so the payload opens with the blank line;
/// - anything else: no MIME structure at all, the whole payload is the body.
///
/// ```
/// use vortice::mime;
///
/// let (headers, body) = mime::split(b"Content-Type: application/beep+xml\r\n\r\n<greeting />");
/// assert_eq!(headers, b"Content-Type: application/beep+xml");
/// assert_eq!(body, b"<greeting />");
///
/// assert_eq!(mime::split(b"\r\nraw"), (&b""[..], &b"raw"[..]));
/// assert_eq!(mime::split(b"raw"), (&b""[..], &b"raw"[..]));
/// ```
#[must_use]
pub fn split(payload: &[u8]) -> (r: (&[u8], &[u8]))
    ensures
        (r.0@, r.1@) == parts(payload@),
{
    let line_end: [u8; 2] = [CR, LF];
    let blank_line: [u8; 4] = [CR, LF, CR, LF];
    let len: usize = payload.len();
    proof {
        assert(line_end@ =~= seq![CR, LF]);
        assert(blank_line@ =~= seq![CR, LF, CR, LF]);
        assert(payload@.subrange(0, 0) =~= Seq::<u8>::empty());
    }
    if text::stands(payload, line_end.as_slice(), 0) {
        let body = vstd::slice::slice_subrange(payload, 2, len);
        assert(body@ =~= payload@.skip(2));
        return (vstd::slice::slice_subrange(payload, 0, 0), body);
    }
    match text::find_subslice(payload, blank_line.as_slice()) {
        Some(i) => {
            let headers = vstd::slice::slice_subrange(payload, 0, i);
            let body = vstd::slice::slice_subrange(payload, i + 4, len);
            assert(headers@ =~= payload@.take(i as int));
            assert(body@ =~= payload@.skip(i + 4));
            (headers, body)
        },
        None => (vstd::slice::slice_subrange(payload, 0, 0), payload),
    }
}

/// Looks a header up by name, case-insensitively, returning its trimmed value.
///
/// `headers` is the first half of a [`split`] result.
///
/// ```
/// use vortice::mime;
///
/// let headers = b"Content-Type: application/beep+xml\r\nContent-Transfer-Encoding: binary";
/// assert_eq!(mime::header(headers, "content-type"), Some(&b"application/beep+xml"[..]));
/// assert_eq!(mime::header(headers, "X-Absent"), None);
/// ```
#[must_use]
pub fn header<'a>(headers: &'a [u8], name: &str) -> (r: Option<&'a [u8]>)
    ensures
        header_value(headers@, name.spec_bytes()) == (match r {
            Some(value) => Some(value@),
            None => None,
        }),
{
    let wanted = name.as_bytes();
    let mut rest = headers;
    loop
        invariant
            wanted@ == name.spec_bytes(),
            header_value(headers@, wanted@) == header_value(rest@, wanted@),
        decreases rest@.len(),
    {
        let len: usize = rest.len();
        proof {
            codec::lemma_position(rest@, LF);
        }
        let end: usize = match codec::find(rest, LF) {
            Some(i) => i,
            None => len,
        };
        let line = strip_cr(vstd::slice::slice_subrange(rest, 0, end));
        assert(rest@.subrange(0, end as int) =~= rest@.take(end as int));
        proof {
            codec::lemma_position(line@, COLON);
        }
        if let Some(colon) = codec::find(line, COLON) {
            let line_len: usize = line.len();
            let found = vstd::slice::slice_subrange(line, 0, colon);
            assert(found@ =~= line@.take(colon as int));
            if text::eq_ignore_case(found, wanted) {
                let value = vstd::slice::slice_subrange(line, colon + 1, line_len);
                assert(value@ =~= line@.skip(colon + 1));
                return Some(text::trim_blank(value));
            }
        }
        if end == len {
            return None;
        }
        assert(rest@.subrange(end + 1, len as int) =~= rest@.skip(end + 1));
        rest = vstd::slice::slice_subrange(rest, end + 1, len);
    }
}

/// The content type of a payload, falling back to [`DEFAULT_CONTENT_TYPE`].
#[must_use]
pub fn content_type(payload: &[u8]) -> (r: &[u8])
    ensures
        r@ == (match header_value(parts(payload@).0, CONTENT_TYPE.spec_bytes()) {
            Some(value) => value,
            None => DEFAULT_CONTENT_TYPE.spec_bytes(),
        }),
{
    let (headers, _) = split(payload);
    match header(headers, CONTENT_TYPE) {
        Some(value) => value,
        None => DEFAULT_CONTENT_TYPE.as_bytes(),
    }
}

/// The body of a payload that declares itself to be a channel-management message.
pub(crate) fn beep_xml_body(payload: &[u8]) -> (r: Option<&[u8]>)
    ensures
        match r {
            Some(body) => is_beep_xml(payload@) && body@ == parts(payload@).1,
            None => !is_beep_xml(payload@),
        },
{
    let (headers, body) = split(payload);
    match header(headers, CONTENT_TYPE) {
        Some(value) => if text::eq_ignore_case(value, BEEP_XML.as_bytes()) {
            Some(body)
        } else {
            None
        },
        None => None,
    }
}

/// A line without the carriage return it may end in.
fn strip_cr(line: &[u8]) -> (r: &[u8])
    ensures
        r@ == without_cr(line@),
{
    let len: usize = line.len();
    if len > 0 && line[len - 1] == CR {
        let r = vstd::slice::slice_subrange(line, 0, len - 1);
        assert(r@ =~= line@.drop_last());
        r
    } else {
        line
    }
}

/// A payload that carries a channel-management document is recognised as one, and gives that
/// document back.
pub proof fn law_documents_survive_their_headers(document: Seq<char>)
    ensures
        is_beep_xml(utf8::encode_utf8(beep_xml_text(document))),
        parts(utf8::encode_utf8(beep_xml_text(document))).1 == utf8::encode_utf8(document),
{
    reveal_strlit("Content-Type");
    reveal_strlit(": ");
    reveal_strlit("application/beep+xml");
    reveal_strlit("\r\n\r\n");
    let name = CONTENT_TYPE@;
    let value = BEEP_XML@;
    let line = name + ": "@ + value;
    let blank = "\r\n\r\n"@;
    let head = line + blank;
    assert(beep_xml_text(document) =~= head + document);
    text::lemma_encode_concat(head, document);
    text::lemma_encode_concat(line, blank);
    utf8::is_ascii_chars_encode_utf8(line);
    utf8::is_ascii_chars_encode_utf8(blank);
    utf8::is_ascii_chars_encode_utf8(name);
    utf8::is_ascii_chars_encode_utf8(value);
    let l = utf8::encode_utf8(line);
    let b = utf8::encode_utf8(blank);
    let d = utf8::encode_utf8(document);
    let payload = utf8::encode_utf8(beep_xml_text(document));
    let mark = seq![CR, LF, CR, LF];
    assert(b =~= mark);
    assert(payload =~= l + mark + d);
    let k = l.len() as int;
    // The line holds no carriage return, so the first blank line is the one behind it.
    assert forall|i: int| 0 <= i < k implies l[i] != CR && l[i] != LF by {
        assert(line[i] as u8 == l[i]);
        assert(line[i] != '\r' && line[i] != '\n') by {
            if i < 12 {
                assert(line[i] == name[i]);
            } else if i >= 14 {
                assert(line[i] == value[i - 14]);
            }
        }
    }
    assert(payload.subrange(k, k + 4) =~= mark);
    assert forall|j: int| 0 <= j < k implies !(#[trigger] text::stands_at(payload, mark, j)) by {
        if text::stands_at(payload, mark, j) {
            assert(payload.subrange(j, j + 4)[0] == mark[0]);
            assert(payload[j] == l[j]);
        }
    }
    text::lemma_find_is(payload, mark, k);
    assert(!text::begins(payload, seq![CR, LF])) by {
        if text::begins(payload, seq![CR, LF]) {
            assert(payload.subrange(0, 2)[0] == CR);
            assert(payload[0] == l[0]);
        }
    }
    assert(payload.take(k) =~= l);
    assert(payload.skip(k + 4) =~= d);
    lemma_content_type_line(l);
}

/// The header line of a channel-management payload says that it is one.
proof fn lemma_content_type_line(l: Seq<u8>)
    requires
        l == utf8::encode_utf8(CONTENT_TYPE@ + ": "@ + BEEP_XML@),
    ensures
        header_value(l, CONTENT_TYPE.spec_bytes()) == Some(BEEP_XML.spec_bytes()),
{
    reveal_strlit("Content-Type");
    reveal_strlit(": ");
    reveal_strlit("application/beep+xml");
    let name = CONTENT_TYPE@;
    let value = BEEP_XML@;
    let line = name + ": "@ + value;
    utf8::is_ascii_chars_encode_utf8(line);
    utf8::is_ascii_chars_encode_utf8(name);
    utf8::is_ascii_chars_encode_utf8(value);
    let n = CONTENT_TYPE.spec_bytes();
    let v = BEEP_XML.spec_bytes();
    assert forall|i: int| 0 <= i < l.len() implies (l[i] == COLON <==> i == 12) && l[i] != LF
        && l[i] != CR by {
        assert(line[i] as u8 == l[i]);
        if i < 12 {
            assert(line[i] == name[i]);
        } else if i >= 14 {
            assert(line[i] == value[i - 14]);
        }
    }
    codec::lemma_position(l, LF);
    codec::lemma_position(l, COLON);
    assert(codec::same_place(l.len() as int) == codec::position(l, LF));
    assert(codec::same_place(12) == codec::position(l, COLON));
    assert(l.take(l.len() as int) =~= l);
    assert(l.take(12) =~= n) by {
        assert forall|i: int| 0 <= i < 12 implies l.take(12)[i] == n[i] by {
            assert(line[i] as u8 == l[i]);
            assert(line[i] == name[i]);
        }
    }
    let tail = l.skip(13);
    assert(tail =~= seq![0x20u8] + v) by {
        assert forall|i: int| 0 <= i < tail.len() implies tail[i] == (seq![0x20u8] + v)[i] by {
            assert(line[i + 13] as u8 == l[i + 13]);
            if i > 0 {
                assert(line[i + 13] == value[i - 1]);
            }
        }
    }
    let drop = |b: u8| text::is_blank(b);
    assert(tail.drop_first() =~= v);
    assert(v[0] == 0x61);
    assert(v.last() == 0x6c);
    assert(text::trimmed_start(tail, drop) == text::trimmed_start(v, drop));
    assert(text::trimmed_blank(tail) == v);
}

/// A payload falls into its headers and its body at the first empty line. One that begins with an
/// empty line has no headers, and neither has one without an empty line, which is all body.
pub proof fn law_payloads_part_at_the_first_empty_line(payload: Seq<u8>, i: int)
    ensures
        text::begins(payload, seq![13u8, 10]) ==> parts(payload) == (
            Seq::<u8>::empty(),
            payload.skip(2),
        ),
        !text::begins(payload, seq![13u8, 10]) && text::find(payload, seq![13u8, 10, 13, 10])
            == Some(i) ==> parts(payload) == (payload.take(i), payload.skip(i + 4)),
        !text::begins(payload, seq![13u8, 10]) && text::find(payload, seq![13u8, 10, 13, 10])
            is None ==> parts(payload) == (Seq::<u8>::empty(), payload),
{
}

/// A header is looked up line by line. A line speaks of a name where it has that name before its
/// first colon, whatever the case of its letters, and says what stands behind the colon, without
/// the blanks at its ends; the first line that speaks of the name decides.
pub proof fn law_headers_are_looked_up_by_line(line: Seq<u8>, rest: Seq<u8>, name: Seq<u8>, k: int)
    requires
        forall|i: int| 0 <= i < line.len() ==> #[trigger] line[i] != 10 && line[i] != 13,
    ensures
        ({
            let said = header_value(line + seq![13u8, 10] + rest, name);
            let colon = 0 <= k < line.len() && line[k] == 58 && forall|i: int|
                0 <= i < k ==> line[i] != 58;
            &&& colon && text::same_but_case(line.take(k), name) ==> said == Some(
                text::trimmed_blank(line.skip(k + 1)),
            )
            &&& colon && !text::same_but_case(line.take(k), name) ==> said == header_value(
                rest,
                name,
            )
            &&& (forall|i: int| 0 <= i < line.len() ==> line[i] != 58) ==> said == header_value(
                rest,
                name,
            )
        }),
        header_value(line, name) == line_value(line, name),
{
    let headers = line + seq![13u8, 10] + rest;
    let n = line.len() as int;
    codec::lemma_position(headers, 10);
    assert forall|j: int| 0 <= j < n + 1 implies headers[j] != 10 by {
        if j < n {
            assert(headers[j] == line[j]);
        }
    }
    assert(headers[n + 1] == 10);
    assert(codec::same_place(n + 1) == codec::position(headers, 10));
    let taken = headers.take(n + 1);
    assert(taken.last() == 13);
    assert(taken.drop_last() =~= line);
    assert(headers.skip(n + 2) =~= rest);
    codec::lemma_position(line, 58);
    if 0 <= k < n && line[k] == 58 && forall|i: int| 0 <= i < k ==> line[i] != 58 {
        assert(codec::same_place(k) == codec::position(line, 58));
    }
    if forall|i: int| 0 <= i < n ==> line[i] != 58 {
        assert(codec::same_place(n) == codec::position(line, 58));
    }
    codec::lemma_position(line, 10);
    assert(codec::same_place(n) == codec::position(line, 10));
    assert(line.take(n) =~= line);
    if n > 0 {
        assert(line[n - 1] != 13);
    }
}

/// A payload is a management message exactly where its content type says that it is, whatever the
/// case of the letters.
pub proof fn law_the_content_type_decides(payload: Seq<u8>)
    ensures
        is_beep_xml(payload) <==> {
            &&& header_value(parts(payload).0, "Content-Type".spec_bytes()) matches Some(value)
            &&& text::same_but_case(value, "application/beep+xml".spec_bytes())
        },
{
}

} // verus!
