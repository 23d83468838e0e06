//! The opening HTTP exchange of RFC 6455, section 4.

use crate::head;
use crate::head::{Fault, Head, HeadView, Reader};
use crate::octets;
use crate::text;
use crate::ws::digest;
use crate::ws::digest::{base64, sha1};
use crate::ws::error::Error;
use crate::ws::frame::fill_random;
use bytes::Bytes;
use vstd::prelude::*;
use vstd::string::*;
use vstd::utf8;

verus! {

/// The constant RFC 6455, section 1.3, appends to the client key before hashing.
pub const GUID: &'static str = "258EAFA5-E914-47DA-95CA-C5AB0DC85B11";

/// The text of `Sec-WebSocket-Accept` answering a given `Sec-WebSocket-Key`.
pub open spec fn accepted(client_key: Seq<char>) -> Seq<char> {
    digest::base64_text(digest::sha1_of(utf8::encode_utf8(client_key + GUID@)))
}

/// The value of `Sec-WebSocket-Accept` answering a given `Sec-WebSocket-Key`.
///
/// ```
/// // The worked example of RFC 6455, section 1.3.
/// assert_eq!(
///     vortice::ws::handshake::accept_key("dGhlIHNhbXBsZSBub25jZQ=="),
///     "s3pPLMBiTxaQ9kYGzzhZRbK+xOo="
/// );
/// ```
#[must_use]
pub fn accept_key(client_key: &str) -> (r: String)
    ensures
        r@ == accepted(client_key@),
{
    let mut salted = client_key.to_owned();
    salted.push_str(GUID);
    let hash = sha1(salted.as_str().as_bytes());
    base64(hash.as_slice())
}

/// The `Sec-WebSocket-Key` for a nonce: its octets in Base64.
pub fn nonce_key(nonce: &[u8; 16]) -> (r: String)
    ensures
        r@ == digest::base64_text(nonce@),
{
    base64(nonce.as_slice())
}

/// The `Sec-WebSocket-Key` that a draw of randomness gives: the octets drawn in Base64, where
/// there were any.
///
/// # Errors
///
/// Returns [`Error::Entropy`] where the operating system had no randomness to give.
pub fn drawn_nonce(filled: bool, octets: [u8; 16]) -> (r: Result<String, Error>)
    ensures
        match r {
            Ok(key) => filled && key@ == digest::base64_text(octets@),
            Err(e) => !filled && e == Error::Entropy,
        },
{
    if filled {
        Ok(nonce_key(&octets))
    } else {
        Err(Error::Entropy)
    }
}

/// Sixteen unpredictable octets, Base64 encoded, for `Sec-WebSocket-Key`. Nothing is said of
/// which octets come back; [`drawn_nonce`] says what becomes of them.
///
/// # Errors
///
/// Returns [`Error::Entropy`] if the operating system has no randomness to give.
pub fn client_key() -> (r: Result<String, Error>)
    ensures
        match r {
            Ok(key) => exists|nonce: Seq<u8>|
                nonce.len() == 16 && key@ == #[trigger] digest::base64_text(nonce),
            Err(e) => e == Error::Entropy,
        },
{
    let mut nonce: [u8; 16] = [0, 0, 0, 0, 0, 0, 0, 0, 0, 0, 0, 0, 0, 0, 0, 0];
    let filled = fill_random(&mut nonce);
    drawn_nonce(filled, nonce)
}

/// What a peer asked for in its handshake request.
#[derive(Debug, Clone)]
pub struct Request {
    /// The `Sec-WebSocket-Key` to answer.
    pub key: String,
}

/// The lines of the request a client sends to open a WebSocket.
pub open spec fn request_lines(path: Seq<char>, host: Seq<char>, key: Seq<char>) -> Seq<
    Seq<char>,
> {
    seq![
        "GET "@ + path + " HTTP/1.1"@,
        "Host: "@ + host,
        "Upgrade: websocket"@,
        "Connection: Upgrade"@,
        "Sec-WebSocket-Key: "@ + key,
        "Sec-WebSocket-Version: 13"@,
    ]
}

/// The lines of the `101` a server answers a valid request with.
pub open spec fn response_lines(key: Seq<char>) -> Seq<Seq<char>> {
    seq![
        "HTTP/1.1 101 Switching Protocols"@,
        "Upgrade: websocket"@,
        "Connection: Upgrade"@,
        "Sec-WebSocket-Accept: "@ + accepted(key),
    ]
}

/// The request a client sends to open a WebSocket.
pub fn request(path: &str, host: &str, key: &str) -> (r: String)
    ensures
        r@ == head::head_text(request_lines(path@, host@, key@)),
{
    let mut out = String::new();
    head::push_line(&mut out, "GET ", path, " HTTP/1.1");
    head::push_line(&mut out, "Host: ", host, "");
    head::push_line(&mut out, "Upgrade: websocket", "", "");
    head::push_line(&mut out, "Connection: Upgrade", "", "");
    head::push_line(&mut out, "Sec-WebSocket-Key: ", key, "");
    head::push_line(&mut out, "Sec-WebSocket-Version: 13", "", "");
    head::push_line(&mut out, "", "", "");
    proof {
        let lines = request_lines(path@, host@, key@);
        reveal_strlit("");
        reveal_with_fuel(head::head_text, 7);
        assert(out@ =~= head::head_text(lines));
    }
    out
}

/// The `101` a server answers a valid request with.
pub fn response(key: &str) -> (r: String)
    ensures
        r@ == head::head_text(response_lines(key@)),
{
    let mut out = String::new();
    head::push_line(&mut out, "HTTP/1.1 101 Switching Protocols", "", "");
    head::push_line(&mut out, "Upgrade: websocket", "", "");
    head::push_line(&mut out, "Connection: Upgrade", "", "");
    head::push_line(&mut out, "Sec-WebSocket-Accept: ", accept_key(key).as_str(), "");
    head::push_line(&mut out, "", "", "");
    proof {
        let lines = response_lines(key@);
        reveal_strlit("");
        reveal_with_fuel(head::head_text, 5);
        assert(out@ =~= head::head_text(lines));
    }
    out
}

/// The key that a request's head hands over, or why it is no handshake.
pub open spec fn requested(head: HeadView) -> Result<Seq<char>, Error> {
    if !(head::words(head.first).len() > 0 && head::words(head.first)[0] == "GET"@) {
        Err(Error::Handshake { reason: "a websocket handshake must be a GET" })
    } else if !head.names("upgrade"@, "websocket"@) {
        Err(Error::Handshake { reason: "the request does not ask to upgrade to websocket" })
    } else if !head.names("connection"@, "upgrade"@) {
        Err(Error::Handshake { reason: "the request is missing Connection: Upgrade" })
    } else if !head.names("sec-websocket-version"@, "13"@) {
        Err(Error::Handshake { reason: "only websocket version 13 is supported" })
    } else {
        match head.value("sec-websocket-key"@) {
            Some(key) => Ok(key),
            None => Err(Error::Handshake { reason: "the request is missing Sec-WebSocket-Key" }),
        }
    }
}

/// Checks a client's request and pulls out what answering it needs.
///
/// # Errors
///
/// Returns [`Error::Handshake`] where the request is not a `GET`, does not ask to upgrade to
/// WebSocket version 13, or has no key.
pub fn parse_request(head: &str) -> (r: Result<Request, Error>)
    ensures
        requested(head::head(head@)) == (match r {
            Ok(request) => Ok(request.key@),
            Err(e) => Err(e),
        }),
{
    let head = Head::parse(head);
    if !head.begins_with("GET") {
        return Err(Error::Handshake { reason: "a websocket handshake must be a GET" });
    }
    if !head.names("upgrade", "websocket") {
        return Err(
            Error::Handshake { reason: "the request does not ask to upgrade to websocket" },
        );
    }
    if !head.names("connection", "upgrade") {
        return Err(Error::Handshake { reason: "the request is missing Connection: Upgrade" });
    }
    if !head.names("sec-websocket-version", "13") {
        // Answering a version we do not speak with a session would be worse than refusing.
        return Err(Error::Handshake { reason: "only websocket version 13 is supported" });
    }
    match head.value("sec-websocket-key") {
        Some(key) => Ok(Request { key }),
        None => Err(Error::Handshake { reason: "the request is missing Sec-WebSocket-Key" }),
    }
}

/// Whether a response's head answers the key that was sent, or why it does not.
pub open spec fn answered(head: HeadView, sent_key: Seq<char>) -> Result<(), Error> {
    if head::status(head.first) != Some(101u16) {
        Err(Error::NotUpgraded { status: head::status(head.first) })
    } else if !head.has("sec-websocket-accept"@, accepted(sent_key)) {
        Err(
            Error::Handshake {
                reason: "the server's Sec-WebSocket-Accept does not answer our key",
            },
        )
    } else {
        Ok(())
    }
}

/// Checks the server's answer against the key we sent.
///
/// # Errors
///
/// Returns [`Error::NotUpgraded`] where the status is not `101`, and [`Error::Handshake`] where
/// no `Sec-WebSocket-Accept` answers the key.
pub fn parse_response(head: &str, sent_key: &str) -> (r: Result<(), Error>)
    ensures
        r == answered(head::head(head@), sent_key@),
{
    let head = Head::parse(head);
    let status = head.status();
    match status {
        Some(101) => {},
        _ => return Err(Error::NotUpgraded { status }),
    }
    if head.has("sec-websocket-accept", accept_key(sent_key).as_str()) {
        Ok(())
    } else {
        // A `101` whose accept key does not match means something on the path answered a
        // handshake it did not understand, which is exactly what the key exists to catch.
        Err(
            Error::Handshake {
                reason: "the server's Sec-WebSocket-Accept does not answer our key",
            },
        )
    }
}

/// The error that a head which could not be read is.
pub open spec fn unread(fault: Fault) -> Error {
    match fault {
        Fault::Endless => Error::Handshake { reason: "no blank line ending the handshake head" },
        Fault::Closed => Error::Handshake {
            reason: "the connection closed before the handshake head was complete",
        },
        Fault::NotText => Error::Handshake { reason: "the handshake head is not text" },
    }
}

impl From<Fault> for Error {
    fn from(fault: Fault) -> (r: Error) {
        match fault {
            Fault::Endless => Error::Handshake {
                reason: "no blank line ending the handshake head",
            },
            Fault::Closed => Error::Handshake {
                reason: "the connection closed before the handshake head was complete",
            },
            Fault::NotText => Error::Handshake { reason: "the handshake head is not text" },
        }
    }
}

impl vstd::std_specs::convert::FromSpecImpl<Fault> for Error {
    open spec fn obeys_from_spec() -> bool {
        true
    }

    open spec fn from_spec(fault: Fault) -> Error {
        unread(fault)
    }
}

/// What a reader gives of a head, with its faults as errors of this exchange.
pub open spec fn head_read(buffer: Seq<u8>) -> Result<Option<(Seq<char>, Seq<u8>)>, Error> {
    match head::reading(buffer) {
        Ok(found) => Ok(found),
        Err(fault) => Err(unread(fault)),
    }
}

/// The head of the peer's message, once all of it has arrived, and the octets past it, which
/// belong to the peer's first frame and must not be dropped.
///
/// Returns `Ok(None)` while more has to be read.
///
/// # Errors
///
/// Returns [`Error::Handshake`] where no head can be read.
pub fn read_head(reader: &mut Reader) -> (r: Result<Option<(String, Bytes)>, Error>)
    ensures
        head_read(old(reader)@) == (match r {
            Ok(Some((head, rest))) => Ok(Some((head@, octets::octets(rest)))),
            Ok(None) => Ok(None),
            Err(e) => Err(e),
        }),
        final(reader)@ == head::left_over(old(reader)@),
{
    match reader.poll() {
        Ok(found) => Ok(found),
        Err(fault) => Err(Error::from(fault)),
    }
}

/// What a server makes of what it has read: the answer to send and the octets past the request.
pub open spec fn server_step(buffer: Seq<u8>) -> Result<Option<(Seq<char>, Seq<u8>)>, Error> {
    match head_read(buffer) {
        Err(e) => Err(e),
        Ok(None) => Ok(None),
        Ok(Some((text, rest))) => match requested(head::head(text)) {
            Err(e) => Err(e),
            Ok(key) => Ok(Some((head::head_text(response_lines(key)), rest))),
        },
    }
}

/// The server's half of the handshake: the answer to send, once the request has arrived, and the
/// octets past it, which are already a WebSocket frame: a client may well send its BEEP greeting
/// in the same segment.
///
/// Returns `Ok(None)` while more has to be read.
///
/// # Errors
///
/// Returns [`Error::Handshake`] where the request is none that opens a WebSocket.
pub fn accept(reader: &mut Reader) -> (r: Result<Option<(String, Bytes)>, Error>)
    ensures
        server_step(old(reader)@) == (match r {
            Ok(Some((answer, rest))) => Ok(Some((answer@, octets::octets(rest)))),
            Ok(None) => Ok(None),
            Err(e) => Err(e),
        }),
        final(reader)@ == head::left_over(old(reader)@),
{
    match read_head(reader) {
        Err(e) => Err(e),
        Ok(None) => Ok(None),
        Ok(Some((text, rest))) => match parse_request(text.as_str()) {
            Err(e) => Err(e),
            Ok(asked) => Ok(Some((response(asked.key.as_str()), rest))),
        },
    }
}

/// What a client makes of what it has read: the octets past the answer.
pub open spec fn client_step(buffer: Seq<u8>, sent_key: Seq<char>) -> Result<
    Option<Seq<u8>>,
    Error,
> {
    match head_read(buffer) {
        Err(e) => Err(e),
        Ok(None) => Ok(None),
        Ok(Some((text, rest))) => match answered(head::head(text), sent_key) {
            Err(e) => Err(e),
            Ok(()) => Ok(Some(rest)),
        },
    }
}

/// The client's half of the handshake: the octets past the answer, once it has arrived and
/// answers the key that was sent.
///
/// Returns `Ok(None)` while more has to be read.
///
/// # Errors
///
/// Returns [`Error::NotUpgraded`] where the server answers anything but `101`, and
/// [`Error::Handshake`] where its answer cannot be read or does not match the key.
pub fn conclude(reader: &mut Reader, sent_key: &str) -> (r: Result<Option<Bytes>, Error>)
    ensures
        client_step(old(reader)@, sent_key@) == (match r {
            Ok(Some(rest)) => Ok(Some(octets::octets(rest))),
            Ok(None) => Ok(None),
            Err(e) => Err(e),
        }),
        final(reader)@ == head::left_over(old(reader)@),
{
    match read_head(reader) {
        Err(e) => Err(e),
        Ok(None) => Ok(None),
        Ok(Some((text, rest))) => match parse_response(text.as_str(), sent_key) {
            Err(e) => Err(e),
            Ok(()) => Ok(Some(rest)),
        },
    }
}

// ---- What holds of the exchange --------------------------------------------------

/// Base64 stands on a line as it is.
proof fn lemma_base64_plain(data: Seq<u8>)
    ensures
        ({
            let t = digest::base64_text(data);
            &&& head::plain(t)
            &&& t == text::trimmed_white(t)
        }),
{
    let t = digest::base64_text(data);
    digest::law_base64_is_plain(data);
    assert forall|i: int| 0 <= i < t.len() implies !text::is_white(#[trigger] t[i]) by {}
    assert forall|i: int| 0 <= i < t.len() implies t[i] != '\r' by {
        assert(!text::is_white(t[i]));
    }
    head::lemma_plain(t);
    text::lemma_trimmed_id(t, |c: char| text::is_white(c));
}

/// The header lines of a request are plain and read back as the fields that they name.
pub(crate) proof fn lemma_request_fields(host: Seq<char>, key: Seq<char>)
    requires
        head::plain(host),
        head::plain(key),
        key == text::trimmed_white(key),
    ensures
        ({
            let path = Seq::<char>::empty();
            let lines = request_lines(path, host, key).drop_first();
            &&& forall|i: int|
                0 <= i < lines.len() ==> head::plain(#[trigger] lines[i]) && lines[i].len() > 0
            &&& head::fields(lines) == seq![
                ("Host"@, text::trimmed_white(host)),
                ("Upgrade"@, "websocket"@),
                ("Connection"@, "Upgrade"@),
                ("Sec-WebSocket-Key"@, key),
                ("Sec-WebSocket-Version"@, "13"@),
            ]
        }),
{
    reveal_strlit("Host: ");
    reveal_strlit("Host");
    reveal_strlit("Upgrade: websocket");
    reveal_strlit("Upgrade");
    reveal_strlit("websocket");
    reveal_strlit("Connection: Upgrade");
    reveal_strlit("Connection");
    reveal_strlit("Sec-WebSocket-Key: ");
    reveal_strlit("Sec-WebSocket-Key");
    reveal_strlit("Sec-WebSocket-Version: 13");
    reveal_strlit("Sec-WebSocket-Version");
    reveal_strlit("13");
    let lines = request_lines(Seq::empty(), host, key).drop_first();
    assert("Host: "@ + host =~= "Host"@ + seq![':', ' '] + host);
    text::lemma_trimmed_id("Host"@, |c: char| text::is_white(c));
    head::law_fields_round_trip("Host"@, host);
    head::lemma_plain_after("Host: "@, host);
    head::lemma_fixed_value("Upgrade: websocket"@, "Upgrade"@, "websocket"@);
    head::lemma_fixed_value("Connection: Upgrade"@, "Connection"@, "Upgrade"@);
    head::lemma_fixed_value("Sec-WebSocket-Version: 13"@, "Sec-WebSocket-Version"@, "13"@);
    assert("Sec-WebSocket-Key: "@ + key =~= "Sec-WebSocket-Key"@ + seq![':', ' '] + key);
    head::lemma_written_field("Sec-WebSocket-Key: "@ + key, "Sec-WebSocket-Key"@, key);
    reveal_with_fuel(head::fields, 6);
    assert(lines[0] == "Host: "@ + host && lines[1] == "Upgrade: websocket"@ && lines[2]
        == "Connection: Upgrade"@ && lines[3] == "Sec-WebSocket-Key: "@ + key && lines[4]
        == "Sec-WebSocket-Version: 13"@);
    assert(head::fields(lines) =~= seq![
        ("Host"@, text::trimmed_white(host)),
        ("Upgrade"@, "websocket"@),
        ("Connection"@, "Upgrade"@),
        ("Sec-WebSocket-Key"@, key),
        ("Sec-WebSocket-Version"@, "13"@),
    ]);
}

/// The request that a client sends is accepted, and the key it sent is the key that the server
/// answers, whatever path and host are asked for: so long as path, host and key can stand on a
/// line, and the key has no white space around it.
pub proof fn law_requests_are_accepted(path: Seq<char>, host: Seq<char>, key: Seq<char>)
    requires
        head::plain(path),
        head::plain(host),
        head::plain(key),
        key == text::trimmed_white(key),
    ensures
        requested(head::head(head::head_text(request_lines(path, host, key)))) == Ok::<
            Seq<char>,
            Error,
        >(key),
{
    let lines = request_lines(path, host, key);
    head::lemma_request_line(path);
    lemma_request_fields(host, key);
    assert(lines.drop_first() =~= request_lines(Seq::empty(), host, key).drop_first());
    assert forall|i: int| 0 <= i < lines.len() implies head::plain(#[trigger] lines[i]) by {
        if i > 0 {
            assert(lines[i] == lines.drop_first()[i - 1]);
        }
    }
    head::law_heads_round_trip(lines);
    let h = head::head(head::head_text(lines));
    lemma_request_view(h, host, key);
}

/// A head with the fields of a request asks for what a request asks for.
proof fn lemma_request_view(h: HeadView, host: Seq<char>, key: Seq<char>)
    requires
        h.fields == seq![
            ("Host"@, text::trimmed_white(host)),
            ("Upgrade"@, "websocket"@),
            ("Connection"@, "Upgrade"@),
            ("Sec-WebSocket-Key"@, key),
            ("Sec-WebSocket-Version"@, "13"@),
        ],
    ensures
        h.names("upgrade"@, "websocket"@),
        h.names("connection"@, "upgrade"@),
        h.names("sec-websocket-version"@, "13"@),
        h.value("sec-websocket-key"@) == Some(key),
{
    reveal_strlit("Host");
    reveal_strlit("Upgrade");
    reveal_strlit("upgrade");
    reveal_strlit("websocket");
    reveal_strlit("Connection");
    reveal_strlit("connection");
    reveal_strlit("Sec-WebSocket-Key");
    reveal_strlit("sec-websocket-key");
    reveal_strlit("Sec-WebSocket-Version");
    reveal_strlit("sec-websocket-version");
    reveal_strlit("13");
    head::lemma_lists_itself("websocket"@, "websocket"@);
    head::lemma_lists_itself("Upgrade"@, "upgrade"@);
    head::lemma_lists_itself("13"@, "13"@);
    assert(head::same_but_case(h.fields[1].0, "upgrade"@));
    assert(head::same_but_case(h.fields[2].0, "connection"@));
    assert(head::same_but_case(h.fields[4].0, "sec-websocket-version"@));
    let stop = |f: (Seq<char>, Seq<char>)| head::same_but_case(f.0, "sec-websocket-key"@);
    assert(stop(h.fields[3]));
    assert forall|i: int| 0 <= i < 3 implies !stop(#[trigger] h.fields[i]) by {
        assert(i == 0 || i == 1 || i == 2);
    }
    text::lemma_until_is(h.fields, stop, 3);
}

/// The answer that a server gives is accepted by the client that sent the key, whatever the key.
pub proof fn law_answers_are_accepted(key: Seq<char>)
    ensures
        answered(head::head(head::head_text(response_lines(key))), key) == Ok::<(), Error>(()),
{
    let lines = response_lines(key);
    let value = accepted(key);
    lemma_response_lines(key);
    head::law_heads_round_trip(lines);
    let h = head::head(head::head_text(lines));
    reveal_strlit("Sec-WebSocket-Accept");
    reveal_strlit("sec-websocket-accept");
    assert(head::same_but_case(h.fields[2].0, "sec-websocket-accept"@));
    assert(h.fields[2].1 == value);
}

/// The lines of an answer are plain; the first gives the status, and the others the fields that
/// they name.
pub(crate) proof fn lemma_response_lines(key: Seq<char>)
    ensures
        ({
            let lines = response_lines(key);
            &&& forall|i: int|
                0 <= i < lines.len() ==> head::plain(#[trigger] lines[i]) && lines[i].len() > 0
            &&& head::status(lines[0]) == Some(101u16)
            &&& head::fields(lines.drop_first()) == seq![
                ("Upgrade"@, "websocket"@),
                ("Connection"@, "Upgrade"@),
                ("Sec-WebSocket-Accept"@, accepted(key)),
            ]
        }),
{
    reveal_strlit("Upgrade: websocket");
    reveal_strlit("Upgrade");
    reveal_strlit("websocket");
    reveal_strlit("Connection: Upgrade");
    reveal_strlit("Connection");
    reveal_strlit("Sec-WebSocket-Accept: ");
    reveal_strlit("Sec-WebSocket-Accept");
    let lines = response_lines(key);
    let value = accepted(key);
    head::lemma_status_line();
    lemma_base64_plain(digest::sha1_of(utf8::encode_utf8(key + GUID@)));
    head::lemma_fixed_value("Upgrade: websocket"@, "Upgrade"@, "websocket"@);
    head::lemma_fixed_value("Connection: Upgrade"@, "Connection"@, "Upgrade"@);
    assert("Sec-WebSocket-Accept: "@ + value =~= "Sec-WebSocket-Accept"@ + seq![':', ' '] + value);
    head::lemma_written_field("Sec-WebSocket-Accept: "@ + value, "Sec-WebSocket-Accept"@, value);
    reveal_with_fuel(head::fields, 4);
    let rest = lines.drop_first();
    assert(rest[0] == "Upgrade: websocket"@ && rest[1] == "Connection: Upgrade"@ && rest[2]
        == "Sec-WebSocket-Accept: "@ + value);
    assert(head::fields(rest) =~= seq![
        ("Upgrade"@, "websocket"@),
        ("Connection"@, "Upgrade"@),
        ("Sec-WebSocket-Accept"@, value),
    ]);
}

/// The whole exchange: what the client sends is accepted and answered with the answer to its key,
/// and that answer is accepted in turn. Whatever follows either head is kept for the frames.
pub proof fn law_handshakes_complete(
    path: Seq<char>,
    host: Seq<char>,
    nonce: Seq<u8>,
    from_client: Seq<u8>,
    from_server: Seq<u8>,
)
    requires
        head::plain(path),
        head::plain(host),
    ensures
        ({
            let key = digest::base64_text(nonce);
            let request = head::head_text(request_lines(path, host, key));
            let response = head::head_text(response_lines(key));
            &&& server_step(utf8::encode_utf8(request) + from_client) == Ok::<
                Option<(Seq<char>, Seq<u8>)>,
                Error,
            >(Some((response, from_client)))
            &&& client_step(utf8::encode_utf8(response) + from_server, key) == Ok::<
                Option<Seq<u8>>,
                Error,
            >(Some(from_server))
        }),
{
    let key = digest::base64_text(nonce);
    lemma_base64_plain(nonce);
    law_requests_are_accepted(path, host, key);
    law_answers_are_accepted(key);
    let asked = request_lines(path, host, key);
    head::lemma_request_line(path);
    lemma_request_fields(host, key);
    assert(asked.drop_first() =~= request_lines(Seq::empty(), host, key).drop_first());
    assert forall|i: int| 0 <= i < asked.len() implies head::plain(#[trigger] asked[i])
        && asked[i].len() > 0 by {
        if i > 0 {
            assert(asked[i] == asked.drop_first()[i - 1]);
        }
    }
    head::law_sent_heads_are_read(asked, from_client);
    lemma_response_lines(key);
    head::law_sent_heads_are_read(response_lines(key), from_server);
}

} // verus!
