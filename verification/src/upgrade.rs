//! BEEP reached through an HTTP/1.1 upgrade, so it can share a port with an HTTP server.
//!
//! ```text
//! C→S  GET /beep HTTP/1.1
//!      Host: api.example.com
//!      Connection: Upgrade
//!      Upgrade: BEEP
//!
//! S→C  HTTP/1.1 101 Switching Protocols
//!      Connection: Upgrade
//!      Upgrade: BEEP
//!
//!      from here on the socket is no longer HTTP
//! S→C  RPY 0 0 . 0 52\r\nContent-Type: application/beep+xml\r\n\r\n<greeting/>...
//! ```

use crate::decimal;
use crate::error::{joined, numbered};
use crate::head;
use crate::head::{Fault, Head, HeadView, Reader};
use crate::octets;
use bytes::Bytes;
use http::{HeaderMap, HeaderValue};
use vstd::prelude::*;
use vstd::string::*;
use vstd::utf8;

verus! {

/// The token naming BEEP in an `Upgrade` header.
///
/// No such token is registered with IANA, so this is a convention, and both ends have to agree
/// on it.
pub const UPGRADE_TOKEN: &'static str = "BEEP";

/// The path a server conventionally serves the upgrade on.
///
/// Nothing enforces it; it is a default so that both ends of an example agree.
pub const DEFAULT_PATH: &'static str = "/beep";

// ---- Errors ----------------------------------------------------------------------

/// Anything that can go wrong reaching BEEP through an HTTP upgrade.
#[derive(Debug, Clone, PartialEq, Eq)]
#[non_exhaustive]
pub enum Error {
    /// The transport failed, and this is what it said.
    Io(String),
    /// The BEEP session itself failed, once the upgrade had completed, and this is what it said.
    Session(String),
    /// The peer answered something other than `101 Switching Protocols`.
    NotUpgraded {
        /// The status it answered with, if the response could be parsed at all.
        status: Option<u16>,
    },
    /// The response was not a response.
    MalformedResponse {
        /// What was expected at the point the parse failed.
        reason: &'static str,
    },
    /// The peer's `101` did not name BEEP in its `Upgrade` header.
    ///
    /// Continuing would mean speaking BEEP at something that agreed to speak
    /// something else.
    WrongProtocol,
}

impl Error {
    /// The text that describes an error.
    pub open spec fn text(self) -> Seq<char> {
        match self {
            Error::Io(said) => "transport error: "@ + said@,
            Error::Session(said) => "session error: "@ + said@,
            Error::NotUpgraded { status: Some(status) } =>
                "expected 101 Switching Protocols, got "@ + decimal::decimal_text(status as nat),
            Error::NotUpgraded { status: None } =>
                "expected 101 Switching Protocols, got an unreadable status"@,
            Error::MalformedResponse { reason } => "malformed HTTP response: "@ + reason@,
            Error::WrongProtocol => "the peer upgraded to something other than "@ + UPGRADE_TOKEN@,
        }
    }

    /// Describes the error for a person.
    pub fn message(&self) -> (out: String)
        ensures
            out@ == self.text(),
    {
        proof {
            reveal_strlit("");
        }
        match self {
            Error::Io(said) => joined("transport error: ", said.as_str(), ""),
            Error::Session(said) => joined("session error: ", said.as_str(), ""),
            Error::NotUpgraded { status: Some(status) } => {
                let out = numbered("expected 101 Switching Protocols, got ", *status as u64, "");
                assert(out@ =~= self.text());
                out
            },
            Error::NotUpgraded { status: None } =>
                "expected 101 Switching Protocols, got an unreadable status".to_owned(),
            Error::MalformedResponse { reason } => joined("malformed HTTP response: ", reason, ""),
            Error::WrongProtocol => joined(
                "the peer upgraded to something other than ",
                UPGRADE_TOKEN,
                "",
            ),
        }
    }
}

/// The error that a response head which could not be read is.
pub open spec fn unread(fault: Fault) -> Error {
    match fault {
        Fault::Endless => Error::MalformedResponse {
            reason: "no blank line ending the response head",
        },
        Fault::Closed => Error::MalformedResponse {
            reason: "connection closed before the response head was complete",
        },
        Fault::NotText => Error::MalformedResponse { reason: "the response head is not text" },
    }
}

impl From<Fault> for Error {
    fn from(fault: Fault) -> (r: Error) {
        match fault {
            Fault::Endless => Error::MalformedResponse {
                reason: "no blank line ending the response head",
            },
            Fault::Closed => Error::MalformedResponse {
                reason: "connection closed before the response head was complete",
            },
            Fault::NotText => Error::MalformedResponse {
                reason: "the response head is not text",
            },
        }
    }
}

impl vstd::std_specs::convert::FromSpecImpl<Fault> for Error {
    open spec fn obeys_from_spec() -> bool {
        true
    }

    open spec fn from_spec(fault: Fault) -> Error {
        unread(fault)
    }
}

// ---- The client's half -----------------------------------------------------------

/// The lines of the request for an upgrade.
pub open spec fn request_lines(path: Seq<char>, host: Seq<char>) -> Seq<Seq<char>> {
    seq![
        "GET "@ + path + " HTTP/1.1"@,
        "Host: "@ + host,
        "Connection: Upgrade"@,
        "Upgrade: "@ + UPGRADE_TOKEN@,
    ]
}

/// The request for an upgrade of `path`.
///
/// It is written by hand rather than through an HTTP client. An upgrade is one request with no
/// body whose whole purpose is to stop being HTTP, so a client that manages connection pools,
/// redirects and keep-alive has nothing to contribute and a great deal to get in the way of.
pub fn request(path: &str, host: &str) -> (r: String)
    ensures
        r@ == head::head_text(request_lines(path@, host@)),
{
    let mut out = String::new();
    head::push_line(&mut out, "GET ", path, " HTTP/1.1");
    head::push_line(&mut out, "Host: ", host, "");
    head::push_line(&mut out, "Connection: Upgrade", "", "");
    head::push_line(&mut out, "Upgrade: ", UPGRADE_TOKEN, "");
    head::push_line(&mut out, "", "", "");
    proof {
        let lines = request_lines(path@, host@);
        reveal_strlit("");
        reveal_with_fuel(head::head_text, 5);
        assert(out@ =~= head::head_text(lines));
    }
    out
}

/// Whether a response's head switches to BEEP, or why it does not.
pub open spec fn switched(head: HeadView) -> Result<(), Error> {
    if head::status(head.first) != Some(101u16) {
        Err(Error::NotUpgraded { status: head::status(head.first) })
    } else if !head.names("upgrade"@, UPGRADE_TOKEN@) {
        Err(Error::WrongProtocol)
    } else {
        Ok(())
    }
}

/// Checks that a response's head is a BEEP upgrade.
///
/// # Errors
///
/// Returns [`Error::NotUpgraded`] where the status is not `101`, and [`Error::WrongProtocol`]
/// where the upgrade is to something else.
pub fn check_switching_protocols(head: &str) -> (r: Result<(), Error>)
    ensures
        r == switched(head::head(head@)),
{
    let head = Head::parse(head);
    let status = head.status();
    match status {
        Some(101) => {},
        _ => return Err(Error::NotUpgraded { status }),
    }
    if head.names("upgrade", UPGRADE_TOKEN) {
        Ok(())
    } else {
        Err(Error::WrongProtocol)
    }
}

/// What a client makes of what it has read: the octets past the response.
pub open spec fn client_step(buffer: Seq<u8>) -> Result<Option<Seq<u8>>, Error> {
    match head::reading(buffer) {
        Err(fault) => Err(unread(fault)),
        Ok(None) => Ok(None),
        Ok(Some((text, rest))) => match switched(head::head(text)) {
            Err(e) => Err(e),
            Ok(()) => Ok(Some(rest)),
        },
    }
}

/// Checks that the response is a BEEP upgrade, once its head has arrived, and returns what came
/// after it, which is already BEEP: the server may well have sent its greeting in the same
/// segment.
///
/// Returns `Ok(None)` while more has to be read.
///
/// # Errors
///
/// Returns [`Error::MalformedResponse`] where no head can be read, [`Error::NotUpgraded`] where
/// the status is not `101`, and [`Error::WrongProtocol`] where the upgrade is to something else.
pub fn read_switching_protocols(reader: &mut Reader) -> (r: Result<Option<Bytes>, Error>)
    ensures
        client_step(old(reader)@) == (match r {
            Ok(Some(rest)) => Ok(Some(octets::octets(rest))),
            Ok(None) => Ok(None),
            Err(e) => Err(e),
        }),
        final(reader)@ == head::left_over(old(reader)@),
{
    match reader.poll() {
        Err(fault) => Err(Error::from(fault)),
        Ok(None) => Ok(None),
        Ok(Some((text, rest))) => match check_switching_protocols(text.as_str()) {
            Err(e) => Err(e),
            Ok(()) => Ok(Some(rest)),
        },
    }
}

// ---- The server's half -----------------------------------------------------------

/// `http::HeaderMap`, kept as it is.
#[verifier::external_type_specification]
#[verifier::external_body]
#[verifier::reject_recursive_types(T)]
pub struct ExHeaderMap<T>(http::HeaderMap<T>);

/// `http::HeaderValue`, kept as it is.
#[verifier::external_type_specification]
#[verifier::external_body]
pub struct ExHeaderValue(http::HeaderValue);

/// `http::header::ToStrError`, kept as it is.
#[verifier::external_type_specification]
#[verifier::external_body]
pub struct ExToStrError(http::header::ToStrError);

/// The octets of a header value.
pub uninterp spec fn value_octets(value: HeaderValue) -> Seq<u8>;

/// The octets of the values that a header map holds under a field name, in the order in which
/// they were put in.
pub uninterp spec fn values_under(headers: HeaderMap<HeaderValue>, name: Seq<char>) -> Seq<Seq<u8>>;

/// `HeaderMap::get_all` gives the values under a field name, in the order in which they were put
/// in.
#[verifier::external_body]
fn get_all(headers: &HeaderMap<HeaderValue>, name: &str) -> (r: Vec<HeaderValue>)
    ensures
        r@.map_values(|v: HeaderValue| value_octets(v)) == values_under(*headers, name@),
{
    headers.get_all(name).iter().cloned().collect()
}

/// Whether an octet is visible ASCII, a space or a tab.
pub open spec fn is_visible(b: u8) -> bool {
    32 <= b < 127 || b == 0x09
}

/// Whether octets are all visible ASCII, spaces or tabs.
pub open spec fn visible(s: Seq<u8>) -> bool {
    forall|i: int| 0 <= i < s.len() ==> is_visible(#[trigger] s[i])
}

/// `HeaderValue::to_str` gives the value as text where all of its octets are visible ASCII,
/// spaces or tabs, and fails otherwise.
pub assume_specification[ http::HeaderValue::to_str ](value: &http::HeaderValue) -> (r: Result<
    &str,
    http::header::ToStrError,
>)
    ensures
        r is Ok <==> visible(value_octets(*value)),
        r matches Ok(s) ==> s.spec_bytes() == value_octets(*value),
;

/// Whether the values under a field name list a token. Values that are not visible ASCII are
/// passed over.
pub open spec fn fields_list(values: Seq<Seq<u8>>, token: Seq<char>) -> bool {
    exists|i: int|
        0 <= i < values.len() && visible(#[trigger] values[i]) && head::lists(
            utf8::decode_utf8(values[i]),
            token,
        )
}

/// Whether a field of a header map lists a token.
fn lists_token(headers: &HeaderMap<HeaderValue>, name: &str, token: &str) -> (r: bool)
    ensures
        r == fields_list(values_under(*headers, name@), token@),
{
    let values = get_all(headers, name);
    let ghost views = values_under(*headers, name@);
    let mut i: usize = 0;
    while i < values.len()
        invariant
            i <= values@.len(),
            views == values_under(*headers, name@),
            views == values@.map_values(|v: HeaderValue| value_octets(v)),
            forall|j: int|
                0 <= j < i ==> !(visible(#[trigger] views[j]) && head::lists(
                    utf8::decode_utf8(views[j]),
                    token@,
                )),
        decreases values@.len() - i,
    {
        assert(views[i as int] == value_octets(values@[i as int]));
        if let Ok(value) = values[i].to_str() {
            proof {
                utf8::encode_utf8_decode_utf8(value@);
            }
            if head::value_lists(value, token) {
                assert(visible(views[i as int]));
                return true;
            }
        }
        i += 1;
    }
    false
}

/// Whether a request's headers ask to upgrade to BEEP: `Connection` lists `upgrade`, and
/// `Upgrade` lists the token.
pub open spec fn asks_for_beep(headers: HeaderMap<HeaderValue>) -> bool {
    fields_list(values_under(headers, "connection"@), "upgrade"@) && fields_list(
        values_under(headers, "upgrade"@),
        UPGRADE_TOKEN@,
    )
}

/// Whether a request's headers ask to upgrade to BEEP.
///
/// Both halves are required and both are matched case-insensitively, since HTTP field values
/// are not case sensitive and `Connection` is a comma separated list that may carry more than
/// `upgrade` alone.
#[must_use]
pub fn is_beep_upgrade(headers: &HeaderMap<HeaderValue>) -> (r: bool)
    ensures
        r == asks_for_beep(*headers),
{
    let connection_asks = lists_token(headers, "connection", "upgrade");
    let upgrade_names_beep = lists_token(headers, "upgrade", UPGRADE_TOKEN);
    connection_asks && upgrade_names_beep
}

/// Why a request could not be treated as a BEEP upgrade.
#[derive(Debug, Clone, Copy, PartialEq, Eq)]
pub struct NotAnUpgrade {
    /// What to tell the peer.
    pub reason: &'static str,
}

/// Whether a request can be answered with an upgrade to BEEP: it has to ask for one, and its
/// connection has to be one that can be upgraded.
///
/// # Errors
///
/// Returns [`NotAnUpgrade`] with what is missing.
pub fn check_upgrade(headers: &HeaderMap<HeaderValue>, upgradable: bool) -> (r: Result<
    (),
    NotAnUpgrade,
>)
    ensures
        r == (if !asks_for_beep(*headers) {
            Err::<(), NotAnUpgrade>(
                NotAnUpgrade { reason: "expected Connection: Upgrade and Upgrade: BEEP" },
            )
        } else if !upgradable {
            Err::<(), NotAnUpgrade>(
                NotAnUpgrade { reason: "this connection cannot be upgraded" },
            )
        } else {
            Ok::<(), NotAnUpgrade>(())
        }),
{
    if !is_beep_upgrade(headers) {
        return Err(NotAnUpgrade { reason: "expected Connection: Upgrade and Upgrade: BEEP" });
    }
    if !upgradable {
        return Err(NotAnUpgrade { reason: "this connection cannot be upgraded" });
    }
    Ok(())
}

/// The fields of the answer that switches to BEEP.
pub open spec fn answer_fields() -> Seq<(Seq<char>, Seq<char>)> {
    seq![("connection"@, "upgrade"@), ("upgrade"@, UPGRADE_TOKEN@)]
}

/// The status and the fields of the answer that switches to BEEP.
#[must_use]
pub fn answer() -> (r: (u16, Vec<(&'static str, &'static str)>))
    ensures
        r.0 == 101,
        r.1@.map_values(|field: (&'static str, &'static str)| (field.0@, field.1@))
            == answer_fields(),
{
    let mut fields: Vec<(&'static str, &'static str)> = Vec::new();
    fields.push(("connection", "upgrade"));
    fields.push(("upgrade", UPGRADE_TOKEN));
    assert(fields@.map_values(|field: (&'static str, &'static str)| (field.0@, field.1@))
        =~= answer_fields());
    (101, fields)
}

// ---- What holds of the exchange --------------------------------------------------

/// The request that a client sends is read whole, and it asks for what a server has to be asked
/// for: it is a `GET`, its `Connection` lists `upgrade` and its `Upgrade` names BEEP. So it is
/// whatever path and host are asked for, so long as both can stand on a line.
pub proof fn law_requests_ask_for_beep(path: Seq<char>, host: Seq<char>, rest: Seq<u8>)
    requires
        head::plain(path),
        head::plain(host),
    ensures
        ({
            let text = head::head_text(request_lines(path, host));
            let h = head::head(text);
            &&& head::reading(utf8::encode_utf8(text) + rest) == Ok::<
                Option<(Seq<char>, Seq<u8>)>,
                Fault,
            >(Some((text, rest)))
            &&& head::words(h.first).len() > 0
            &&& head::words(h.first)[0] == "GET"@
            &&& h.names("connection"@, "upgrade"@)
            &&& h.names("upgrade"@, UPGRADE_TOKEN@)
        }),
{
    reveal_strlit("Host: ");
    reveal_strlit("Host");
    reveal_strlit("Upgrade: ");
    reveal_strlit("Upgrade");
    reveal_strlit("upgrade");
    reveal_strlit("Connection: Upgrade");
    reveal_strlit("Connection");
    reveal_strlit("connection");
    reveal_strlit("BEEP");
    let lines = request_lines(path, host);
    head::lemma_request_line(path);
    assert("Host: "@ + host =~= "Host"@ + seq![':', ' '] + host);
    crate::text::lemma_trimmed_id("Host"@, |c: char| crate::text::is_white(c));
    head::law_fields_round_trip("Host"@, host);
    head::lemma_plain_after("Host: "@, host);
    head::lemma_fixed_value("Connection: Upgrade"@, "Connection"@, "Upgrade"@);
    head::lemma_fixed_value("Upgrade: "@ + UPGRADE_TOKEN@, "Upgrade"@, UPGRADE_TOKEN@);
    assert forall|i: int| 0 <= i < lines.len() implies head::plain(#[trigger] lines[i])
        && lines[i].len() > 0 by {
        assert(i == 0 || i == 1 || i == 2 || i == 3);
    }
    head::law_sent_heads_are_read(lines, rest);
    head::law_heads_round_trip(lines);
    let fields = lines.drop_first();
    reveal_with_fuel(head::fields, 4);
    assert(fields[0] == "Host: "@ + host && fields[1] == "Connection: Upgrade"@ && fields[2]
        == "Upgrade: "@ + UPGRADE_TOKEN@);
    assert(head::fields(fields) =~= seq![
        ("Host"@, crate::text::trimmed_white(host)),
        ("Connection"@, "Upgrade"@),
        ("Upgrade"@, UPGRADE_TOKEN@),
    ]);
    let h = head::head(head::head_text(lines));
    head::lemma_lists_itself("Upgrade"@, "upgrade"@);
    head::lemma_lists_itself(UPGRADE_TOKEN@, UPGRADE_TOKEN@);
    assert(head::same_but_case(h.fields[1].0, "connection"@));
    assert(head::same_but_case(h.fields[2].0, "upgrade"@));
}

/// The answer that a server gives is taken by the client, whatever else its head says.
pub proof fn law_answers_are_taken(h: HeadView)
    requires
        head::status(h.first) == Some(101u16),
        forall|i: int| 0 <= i < answer_fields().len() ==> h.fields.contains(
            #[trigger] answer_fields()[i],
        ),
    ensures
        switched(h) is Ok,
{
    reveal_strlit("upgrade");
    reveal_strlit("BEEP");
    assert(h.fields.contains(answer_fields()[1]));
    let at = choose|i: int| 0 <= i < h.fields.len() && h.fields[i] == answer_fields()[1];
    assert(head::same_but_case(h.fields[at].0, "upgrade"@));
    head::lemma_lists_itself(UPGRADE_TOKEN@, UPGRADE_TOKEN@);
}

/// A `101` that names BEEP in its `Upgrade`, in whatever case and among whatever else, is taken;
/// nothing but a `101` is.
pub proof fn law_only_a_switch_to_beep_is_taken(h: HeadView)
    ensures
        switched(h) is Ok <==> head::status(h.first) == Some(101u16) && h.names(
            "upgrade"@,
            UPGRADE_TOKEN@,
        ),
{
}

/// A request for BEEP asks for the path by `GET`, names the host, and asks to upgrade the
/// connection to BEEP, in header fields of their own.
pub proof fn law_requests_are_written_as_upgrades(path: Seq<char>, host: Seq<char>)
    ensures
        request_lines(path, host) == seq![
            "GET "@ + path + " HTTP/1.1"@,
            "Host: "@ + host,
            "Connection: Upgrade"@,
            "Upgrade: BEEP"@,
        ],
        answer_fields() == seq![("connection"@, "upgrade"@), ("upgrade"@, "BEEP"@)],
{
    reveal_strlit("Upgrade: ");
    reveal_strlit("BEEP");
    reveal_strlit("Upgrade: BEEP");
    assert("Upgrade: "@ + UPGRADE_TOKEN@ =~= "Upgrade: BEEP"@);
    assert(request_lines(path, host) =~= seq![
        "GET "@ + path + " HTTP/1.1"@,
        "Host: "@ + host,
        "Connection: Upgrade"@,
        "Upgrade: BEEP"@,
    ]);
}

/// A response switches to BEEP where its status is 101 and its upgrade names BEEP; any other
/// status is said, and so is another protocol. A client waits for the whole head, and hands on
/// what came behind it.
pub proof fn law_responses_are_checked(h: HeadView, buffer: Seq<u8>)
    ensures
        switched(h) == (if head::status(h.first) != Some(101u16) {
            Err::<(), Error>(Error::NotUpgraded { status: head::status(h.first) })
        } else if !h.names("upgrade"@, "BEEP"@) {
            Err(Error::WrongProtocol)
        } else {
            Ok(())
        }),
        match head::reading(buffer) {
            Err(fault) => client_step(buffer) matches Err(Error::MalformedResponse { .. }),
            Ok(None) => client_step(buffer) == Ok::<Option<Seq<u8>>, Error>(None),
            Ok(Some((said, rest))) => match switched(head::head(said)) {
                Ok(_) => client_step(buffer) == Ok::<Option<Seq<u8>>, Error>(Some(rest)),
                Err(e) => client_step(buffer) == Err::<Option<Seq<u8>>, Error>(e),
            },
        },
{
}

/// A header field lists a token where one of its values is visible text that does. A request asks
/// for BEEP where its connection lists an upgrade and its upgrade lists BEEP.
pub proof fn law_requests_for_beep_are_told(
    headers: HeaderMap<HeaderValue>,
    values: Seq<Seq<u8>>,
    token: Seq<char>,
    octet: u8,
)
    ensures
        is_visible(octet) <==> octet == 9 || 32 <= octet <= 126,
        fields_list(values, token) <==> exists|i: int|
            0 <= i < values.len() && (forall|j: int|
                0 <= j < values[i].len() ==> is_visible(#[trigger] values[i][j])) && head::lists(
                utf8::decode_utf8(#[trigger] values[i]),
                token,
            ),
        asks_for_beep(headers) <==> fields_list(values_under(headers, "connection"@), "upgrade"@)
            && fields_list(values_under(headers, "upgrade"@), "BEEP"@),
{
    if fields_list(values, token) {
        let i = choose|i: int|
            0 <= i < values.len() && visible(#[trigger] values[i]) && head::lists(
                utf8::decode_utf8(values[i]),
                token,
            );
        assert(visible(values[i]));
    }
    if exists|i: int|
        0 <= i < values.len() && (forall|j: int|
            0 <= j < values[i].len() ==> is_visible(#[trigger] values[i][j])) && head::lists(
            utf8::decode_utf8(#[trigger] values[i]),
            token,
        ) {
        let i = choose|i: int|
            0 <= i < values.len() && (forall|j: int|
                0 <= j < values[i].len() ==> is_visible(#[trigger] values[i][j])) && head::lists(
                utf8::decode_utf8(#[trigger] values[i]),
                token,
            );
        assert(visible(values[i]));
    }
}

} // verus!
