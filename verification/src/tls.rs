//! The BEEP TLS profile, RFC 3080, section 3.1, and BEEP inside TLS from the first octet.
//!
//! A session begins in the clear, and either end may then ask to tune it: a channel is started
//! offering [`PROFILE_URI`] with [`READY`] piggybacked on the request, the other end answers
//! [`PROCEED`] piggybacked on the acceptance, and both then replace the transport with a TLS
//! stream over it. What follows is a new session: everything learnt before is discarded and the
//! greeting exchange begins again.
//!
//! This module decides; the transport itself is for the caller to swap.

use crate::codec;
use crate::decimal;
use crate::error::joined;
use crate::frame::FrameKind;
use crate::greeting;
use crate::greeting::Greeting;
use crate::management::code;
use crate::management::{
    Encoding, ErrorReply, ErrorReplyView, Profile, ProfileView, Start, StartView,
};
use crate::session::{Config, ConfigView};
use crate::text;
use crate::xml;
use tokio_rustls::rustls::pki_types::{
    CertificateDer, PrivateKeyDer, PrivatePkcs1KeyDer, PrivatePkcs8KeyDer, PrivateSec1KeyDer,
    ServerName,
};
use tokio_rustls::rustls::{ClientConfig, RootCertStore, ServerConfig};
use tokio_rustls::TlsAcceptor;
use vstd::prelude::*;
use vstd::string::*;

verus! {

/// The profile URI that names this negotiation.
pub const PROFILE_URI: &'static str = "http://iana.org/beep/TLS";

/// What the initiating peer piggybacks on the channel it starts.
pub const READY: &'static str = "<ready />";

/// What the listening peer piggybacks on the acceptance.
pub const PROCEED: &'static str = "<proceed />";

/// The ALPN name for BEEP directly inside TLS.
///
/// Nothing registers it with IANA, so both ends have to agree.
pub const BEEP_ALPN: &'static str = "beep";

// ---- Errors ----------------------------------------------------------------------

/// Why a BEEP session could not be tuned for TLS.
#[derive(Debug, Clone, PartialEq, Eq)]
#[non_exhaustive]
pub enum Error {
    /// The peer does not offer the TLS profile in its greeting.
    NotOffered,
    /// The peer refused the channel that carries the negotiation.
    Refused(ErrorReply),
    /// The peer answered the offer with something other than `<proceed />`.
    ///
    /// An `<error/>` is allowed here, which is a peer declining to tune rather than a failure of
    /// the session.
    NotProceeding(String),
    /// The TLS handshake itself failed, and this is what it said.
    Handshake(String),
    /// The session failed, before or after the handshake, and this is what it said.
    Session(String),
    /// A certificate or key could not be read.
    Certificate(String),
}

/// What an error says.
#[verifier::ext_equal]
pub enum ErrorView {
    NotOffered,
    Refused(ErrorReplyView),
    NotProceeding(Seq<char>),
    Handshake(Seq<char>),
    Session(Seq<char>),
    Certificate(Seq<char>),
}

impl View for Error {
    type V = ErrorView;

    open spec fn view(&self) -> ErrorView {
        match self {
            Error::NotOffered => ErrorView::NotOffered,
            Error::Refused(reply) => ErrorView::Refused(reply@),
            Error::NotProceeding(answer) => ErrorView::NotProceeding(answer@),
            Error::Handshake(said) => ErrorView::Handshake(said@),
            Error::Session(said) => ErrorView::Session(said@),
            Error::Certificate(reason) => ErrorView::Certificate(reason@),
        }
    }
}

/// What `Debug` writes for a text: the text in double quotes, with what is not printable
/// escaped.
pub uninterp spec fn quoted(s: Seq<char>) -> Seq<char>;

/// `<str as Debug>::fmt`, by way of `format!`.
#[verifier::external_body]
fn quote(s: &str) -> (r: String)
    ensures
        r@ == quoted(s@),
{
    format!("{s:?}")
}

/// What `Debug` writes for a text that may be absent.
pub open spec fn quoted_option(s: Option<Seq<char>>) -> Seq<char> {
    match s {
        Some(s) => "Some("@ + quoted(s) + ")"@,
        None => "None"@,
    }
}

impl ErrorView {
    /// The text that describes an error.
    pub open spec fn text(self) -> Seq<char> {
        match self {
            ErrorView::NotOffered => "the peer's greeting does not offer the TLS profile"@,
            ErrorView::Refused(reply) => "the peer refused the TLS channel: ErrorReply { code: "@
                + decimal::decimal_text(reply.code as nat) + ", lang: "@ + quoted_option(reply.lang)
                + ", text: "@ + quoted_option(reply.text) + " }"@,
            ErrorView::NotProceeding(answer) => "the peer answered "@ + quoted(answer)
                + " instead of proceeding"@,
            ErrorView::Handshake(said) => "the TLS handshake failed: "@ + said,
            ErrorView::Session(said) => "beep session failed: "@ + said,
            ErrorView::Certificate(reason) => reason,
        }
    }
}

/// Appends what `Debug` writes for a text that may be absent.
fn push_quoted(out: &mut String, s: &Option<String>)
    ensures
        final(out)@ == old(out)@ + quoted_option(greeting::text_view(*s)),
{
    let ghost before = out@;
    match s {
        Some(s) => {
            out.push_str("Some(");
            out.push_str(quote(s.as_str()).as_str());
            out.push_str(")");
        },
        None => {
            out.push_str("None");
        },
    }
    assert(out@ =~= before + quoted_option(greeting::text_view(*s)));
}

impl Error {
    /// Describes the error for a person.
    pub fn message(&self) -> (out: String)
        ensures
            out@ == self@.text(),
    {
        proof {
            reveal_strlit("");
        }
        match self {
            Error::NotOffered => "the peer's greeting does not offer the TLS profile".to_owned(),
            Error::Refused(reply) => {
                let mut out = "the peer refused the TLS channel: ErrorReply { code: ".to_owned();
                decimal::push_decimal(&mut out, reply.code as u64);
                out.push_str(", lang: ");
                push_quoted(&mut out, &reply.lang);
                out.push_str(", text: ");
                push_quoted(&mut out, &reply.text);
                out.push_str(" }");
                assert(out@ =~= self@.text());
                out
            },
            Error::NotProceeding(answer) => joined(
                "the peer answered ",
                quote(answer.as_str()).as_str(),
                " instead of proceeding",
            ),
            Error::Handshake(said) => joined("the TLS handshake failed: ", said.as_str(), ""),
            Error::Session(said) => joined("beep session failed: ", said.as_str(), ""),
            Error::Certificate(reason) => reason.as_str().to_owned(),
        }
    }
}

// ---- Tuning a session ------------------------------------------------------------

/// What a client starts a channel with to tune a session, if the peer's greeting offers TLS.
///
/// The offer and the answer both ride on the channel exchange, so that single round trip is the
/// whole negotiation.
///
/// # Errors
///
/// Returns [`Error::NotOffered`] when the peer's greeting does not list the profile.
pub fn offer(peer: &Greeting) -> (r: Result<Profile, Error>)
    ensures
        match r {
            Ok(profile) => {
                &&& peer@.profiles.contains(PROFILE_URI@)
                &&& profile@ == offer_view()
            },
            Err(e) => {
                &&& !peer@.profiles.contains(PROFILE_URI@)
                &&& e@ == ErrorView::NotOffered
            },
        },
{
    if !peer.advertises(PROFILE_URI) {
        return Err(Error::NotOffered);
    }
    Ok(Profile::new(PROFILE_URI).with_content(READY))
}

/// The profile that offers to tune.
pub open spec fn offer_view() -> ProfileView {
    ProfileView { uri: PROFILE_URI@, encoding: Encoding::Literal, content: Some(READY@) }
}

/// The profile that accepts the offer.
pub open spec fn acceptance_view(uri: Seq<char>) -> ProfileView {
    ProfileView { uri, encoding: Encoding::Literal, content: Some(PROCEED@) }
}

/// Whether what came back on the channel says to go on with the handshake.
///
/// # Errors
///
/// Returns [`Error::NotProceeding`] when it is anything but `<proceed />`.
pub fn proceeding(answer: &Profile) -> (r: Result<(), Error>)
    ensures
        match r {
            Ok(()) => answer@.content == Some(PROCEED@),
            Err(e) => {
                &&& answer@.content != Some(PROCEED@)
                &&& e@ == ErrorView::NotProceeding(
                    match answer@.content {
                        Some(other) => other,
                        None => "nothing at all"@,
                    },
                )
            },
        },
{
    match &answer.content {
        Some(content) => {
            if xml::same_text(content.as_str(), PROCEED) {
                Ok(())
            } else {
                Err(Error::NotProceeding(content.as_str().to_owned()))
            }
        },
        None => Err(Error::NotProceeding("nothing at all".to_owned())),
    }
}

/// What a start piggybacks for a profile: the content of the first offer of it.
pub open spec fn piggybacked(start: StartView, uri: Seq<char>) -> Option<Seq<char>> {
    let at = text::until(start.profiles, |p: ProfileView| p.uri == uri);
    if at < start.profiles.len() {
        start.profiles[at].content
    } else {
        None
    }
}

/// What a start without the piggyback is answered with.
pub open spec fn refusal_view() -> ErrorReplyView {
    ErrorReplyView {
        code: code::TRANSACTION_FAILED,
        lang: None,
        text: Some("the TLS profile expects <ready /> piggybacked on the start"@),
    }
}

/// The listening half of the profile.
///
/// Answers a channel offering TLS with `<proceed />`, after which the transport is replaced.
pub struct TlsProfile {
    after: Config,
}

impl View for TlsProfile {
    type V = ConfigView;

    closed spec fn view(&self) -> ConfigView {
        self.after@
    }
}

impl TlsProfile {
    /// Runs the session that follows with `after`.
    #[must_use]
    pub fn new(after: Config) -> (r: TlsProfile)
        ensures
            r@ == after@,
    {
        TlsProfile { after }
    }

    /// How the session that follows is configured.
    pub fn after(&self) -> (r: &Config)
        ensures
            r@ == self@,
    {
        &self.after
    }

    /// Answers a start that offers the profile.
    ///
    /// # Errors
    ///
    /// Refuses a start without `<ready />`: that is better than accepting and then swapping a
    /// transport the peer is not expecting to change.
    pub fn accept(&self, uri: &str, start: &Start) -> (r: Result<Profile, ErrorReply>)
        ensures
            match r {
                Ok(profile) => {
                    &&& piggybacked(start@, uri@) == Some(READY@)
                    &&& profile@ == acceptance_view(uri@)
                },
                Err(reply) => {
                    &&& piggybacked(start@, uri@) != Some(READY@)
                    &&& reply@ == refusal_view()
                },
            },
    {
        let ghost stop = |p: ProfileView| p.uri == uri@;
        let mut i: usize = 0;
        while i < start.profiles.len() && !xml::same_text(start.profiles[i].uri.as_str(), uri)
            invariant
                i <= start.profiles@.len(),
                stop == (|p: ProfileView| p.uri == uri@),
                forall|j: int| 0 <= j < i ==> !stop(#[trigger] start@.profiles[j]),
            decreases start.profiles@.len() - i,
        {
            assert(start@.profiles[i as int] == start.profiles@[i as int]@);
            i += 1;
        }
        proof {
            assert(i < start.profiles@.len() ==> start@.profiles[i as int]
                == start.profiles@[i as int]@);
            text::lemma_until_is(start@.profiles, stop, i as int);
        }
        if i < start.profiles.len() {
            if let Some(content) = &start.profiles[i].content {
                if xml::same_text(content.as_str(), READY) {
                    return Ok(Profile::new(uri).with_content(PROCEED));
                }
            }
        }
        Err(
            ErrorReply::new(code::TRANSACTION_FAILED).with_text(
                "the TLS profile expects <ready /> piggybacked on the start",
                None,
            ),
        )
    }

    /// Whether a channel with this profile replaces the transport, which is what stops the
    /// session reading between the acceptance and the handshake.
    pub fn upgrades_transport(&self) -> (r: bool)
        ensures
            r,
    {
        true
    }
}

/// The two halves agree: what a client offers is accepted, whatever else is offered behind it,
/// and what it is accepted with says to proceed.
pub proof fn law_offers_are_taken_up(start: StartView)
    requires
        start.profiles.len() > 0,
        start.profiles[0] == offer_view(),
    ensures
        piggybacked(start, PROFILE_URI@) == Some(READY@),
        acceptance_view(PROFILE_URI@).content == Some(PROCEED@),
{
}

/// A start that offers the profile without the piggyback is refused.
pub proof fn law_bare_starts_are_refused(start: StartView, uri: Seq<char>)
    requires
        forall|i: int|
            0 <= i < start.profiles.len() ==> (#[trigger] start.profiles[i]).uri == uri
                ==> start.profiles[i].content is None,
    ensures
        piggybacked(start, uri) != Some(READY@),
{
    text::lemma_until(start.profiles, |p: ProfileView| p.uri == uri);
}

// ---- Telling TLS from what else may arrive ---------------------------------------

/// Whether octets begin as a TLS connection does.
pub open spec fn opens_tls(prefix: Seq<u8>) -> bool {
    prefix.len() >= 2 && prefix[0] == 0x16 && prefix[1] == 0x03
}

/// Whether these octets look like the start of a TLS connection.
///
/// A TLS record begins with a content type and a two octet version, and a handshake opens with
/// `0x16 0x03`. No BEEP frame can start that way, since a header begins with one of six keywords,
/// all upper-case ASCII, and neither can an HTTP request. That makes the three distinguishable on
/// a shared port from the first two octets.
///
/// Answers `false` when given fewer than two octets: undecided rather than a guess.
///
/// ```
/// assert!(vortice::tls::looks_like_tls(&[0x16, 0x03, 0x01]));
/// assert!(!vortice::tls::looks_like_tls(b"RPY 0 0 . 0 0"));
/// assert!(!vortice::tls::looks_like_tls(b"GET / HTTP/1.1"));
/// assert!(!vortice::tls::looks_like_tls(&[0x16]));
/// ```
#[must_use]
pub fn looks_like_tls(prefix: &[u8]) -> (r: bool)
    ensures
        r == opens_tls(prefix@),
{
    prefix.len() >= 2 && prefix[0] == 0x16 && prefix[1] == 0x03
}

/// What opens as TLS does begins neither with a BEEP frame nor as a WebSocket handshake.
pub proof fn law_tls_is_told_apart(prefix: Seq<u8>, max_frame_size: u32)
    requires
        opens_tls(prefix),
    ensures
        (codec::DecoderView { max_frame_size, pending: None }).decode(prefix) matches Ok(d)
            ==> d.frame is None,
        !text::begins(prefix, crate::ws::server::OPENING@),
{
    let window = if prefix.len() < crate::frame::MAX_HEADER_LEN {
        prefix
    } else {
        prefix.take(crate::frame::MAX_HEADER_LEN as int)
    };
    codec::lemma_position(window, crate::frame::LF);
    let lf = codec::position(window, crate::frame::LF);
    if lf < window.len() && lf > 0 {
        let line = prefix.take(lf - 1);
        if line.len() >= 3 {
            let token = line.take(3);
            assert(token[0] == 0x16);
            assert(token != crate::frame::SeqView::token());
            assert(FrameKind::of_token(token) is None);
        }
    }
    if text::begins(prefix, crate::ws::server::OPENING@) {
        assert(prefix.subrange(0, 4)[0] == prefix[0]);
    }
}

/// The protocol names of a configuration, as ALPN carries them.
///
/// ALPN is how one TLS port carries more than one protocol: the client lists what it speaks,
/// the server picks, and the choice is available before a single application octet is read.
pub fn alpn_names(protocols: &[&str]) -> (r: Vec<Vec<u8>>)
    ensures
        octet_views(r@) == protocols@.map_values(|protocol: &str| protocol.spec_bytes()),
{
    let mut names: Vec<Vec<u8>> = Vec::new();
    let mut i: usize = 0;
    while i < protocols.len()
        invariant
            i <= protocols@.len(),
            names@.len() == i,
            forall|j: int| 0 <= j < i ==> (#[trigger] names@[j])@ == protocols@[j].spec_bytes(),
        decreases protocols@.len() - i,
    {
        names.push(vstd::slice::slice_to_vec(protocols[i].as_bytes()));
        i += 1;
    }
    assert(octet_views(names@) =~= protocols@.map_values(
        |protocol: &str| protocol.spec_bytes(),
    ));
    names
}

/// `ClientConfig::alpn_protocols`, set: the configuration offers these names, and is otherwise as
/// it was.
#[verifier::external_body]
fn set_client_protocols(tls: ClientConfig, names: Vec<Vec<u8>>) -> (r: ClientConfig)
    ensures
        client_view(r) == (ClientView { protocols: octet_views(names@), ..client_view(tls) }),
{
    let mut tls = tls;
    tls.alpn_protocols = names;
    tls
}

/// `ServerConfig::alpn_protocols`, set: the configuration accepts these names, and is otherwise
/// as it was.
#[verifier::external_body]
fn set_server_protocols(tls: ServerConfig, names: Vec<Vec<u8>>) -> (r: ServerConfig)
    ensures
        server_view(r) == (ServerView { protocols: octet_views(names@), ..server_view(tls) }),
{
    let mut tls = tls;
    tls.alpn_protocols = names;
    tls
}

/// `TlsAcceptor::from`, an acceptor that goes by the configuration.
#[verifier::external_body]
fn acceptor_from(tls: ServerConfig) -> (r: TlsAcceptor)
    ensures
        acceptor_view(r) == server_view(tls),
{
    TlsAcceptor::from(std::sync::Arc::new(tls))
}

/// A client configuration that offers the given protocols by ALPN, in place of any it offered
/// before, and is otherwise as it was.
///
/// [`BEEP_ALPN`] is the name for BEEP.
pub fn with_client_alpn(tls: ClientConfig, protocols: &[&str]) -> (r: ClientConfig)
    ensures
        client_view(r) == (ClientView {
            protocols: protocols@.map_values(|protocol: &str| protocol.spec_bytes()),
            ..client_view(tls)
        }),
{
    set_client_protocols(tls, alpn_names(protocols))
}

/// A server configuration that accepts the given protocols by ALPN, in order of preference, in
/// place of any it accepted before, and is otherwise as it was.
pub fn with_server_alpn(tls: ServerConfig, protocols: &[&str]) -> (r: ServerConfig)
    ensures
        server_view(r) == (ServerView {
            protocols: protocols@.map_values(|protocol: &str| protocol.spec_bytes()),
            ..server_view(tls)
        }),
{
    set_server_protocols(tls, alpn_names(protocols))
}

/// An acceptor for `tls`, to be shared across connections.
#[must_use]
pub fn acceptor(tls: ServerConfig) -> (r: TlsAcceptor)
    ensures
        acceptor_view(r) == server_view(tls),
{
    acceptor_from(tls)
}

/// How a session failed: by a refusal, or otherwise, with what it said.
pub enum Failure {
    /// The peer refused a channel.
    Refused(ErrorReply),
    /// Anything else.
    Other(String),
}

/// What became of a session that was being tuned and failed.
///
/// A swap of the transport that fails ends the session, which would reach the caller as a session
/// that merely ended. A refused certificate is a different thing to be told, and the most likely
/// failure, so what the handshake said, if it was the handshake, is reported as itself.
pub fn tuning_failed(handshake: Option<String>, failure: Failure) -> (r: Error)
    ensures
        r@ == (match handshake {
            Some(said) => ErrorView::Handshake(said@),
            None => match failure {
                Failure::Refused(reply) => ErrorView::Refused(reply@),
                Failure::Other(said) => ErrorView::Session(said@),
            },
        }),
{
    match handshake {
        Some(said) => Error::Handshake(said),
        None => match failure {
            Failure::Refused(reply) => Error::Refused(reply),
            Failure::Other(said) => Error::Session(said),
        },
    }
}

/// Whether the handshake can begin: the answer has to say so, and the name that the certificate
/// is checked against has to be one.
///
/// # Errors
///
/// Returns [`Error::NotProceeding`] when the answer is anything but `<proceed />`, and
/// [`Error::Certificate`] when the name is neither a DNS name nor an IP address.
pub fn may_begin(answer: &Profile, server_name: &str) -> (r: Result<(), Error>)
    ensures
        match r {
            Ok(()) => answer@.content == Some(PROCEED@) && names_a_server(server_name@),
            Err(e) => e@ == (if answer@.content != Some(PROCEED@) {
                ErrorView::NotProceeding(
                    match answer@.content {
                        Some(other) => other,
                        None => "nothing at all"@,
                    },
                )
            } else {
                ErrorView::Certificate(quoted(server_name@) + " is not a valid server name"@)
            }) && !(answer@.content == Some(PROCEED@) && names_a_server(server_name@)),
        },
{
    match proceeding(answer) {
        Err(e) => Err(e),
        Ok(()) => check_server_name(server_name),
    }
}

// ---- Certificates and keys -------------------------------------------------------

/// `rustls::ServerConfig`, kept as it is.
#[verifier::external_type_specification]
#[verifier::external_body]
pub struct ExServerConfig(tokio_rustls::rustls::ServerConfig);

/// `rustls::ClientConfig`, kept as it is.
#[verifier::external_type_specification]
#[verifier::external_body]
pub struct ExClientConfig(tokio_rustls::rustls::ClientConfig);

/// `rustls::RootCertStore`, kept as it is.
#[verifier::external_type_specification]
#[verifier::external_body]
pub struct ExRootCertStore(tokio_rustls::rustls::RootCertStore);

/// `tokio_rustls::TlsAcceptor`, kept as it is.
#[verifier::external_type_specification]
#[verifier::external_body]
pub struct ExTlsAcceptor(tokio_rustls::TlsAcceptor);

/// A private key, in one of the encodings that rustls accepts.
pub enum PrivateKey {
    /// An RSA key in PKCS#1.
    Pkcs1(Vec<u8>),
    /// An elliptic curve key in SEC 1.
    Sec1(Vec<u8>),
    /// A key in PKCS#8.
    Pkcs8(Vec<u8>),
}

/// What a private key holds.
#[verifier::ext_equal]
pub enum PrivateKeyView {
    Pkcs1(Seq<u8>),
    Sec1(Seq<u8>),
    Pkcs8(Seq<u8>),
}

impl View for PrivateKey {
    type V = PrivateKeyView;

    open spec fn view(&self) -> PrivateKeyView {
        match self {
            PrivateKey::Pkcs1(der) => PrivateKeyView::Pkcs1(der@),
            PrivateKey::Sec1(der) => PrivateKeyView::Sec1(der@),
            PrivateKey::Pkcs8(der) => PrivateKeyView::Pkcs8(der@),
        }
    }
}

/// What a certificate contributes to a store of roots: its subject, its public key, and the
/// names it is constrained to.
#[verifier::ext_equal]
pub struct AnchorView {
    pub subject: Seq<u8>,
    pub public_key: Seq<u8>,
    pub name_constraints: Option<Seq<u8>>,
}

/// What a client's configuration holds: the trust anchors that it checks servers against, and the
/// protocol names that it offers by ALPN, in order.
#[verifier::ext_equal]
pub struct ClientView {
    pub trusted: Seq<AnchorView>,
    pub protocols: Seq<Seq<u8>>,
}

/// What a server's configuration holds: the certificate chain that it presents, the private key
/// that goes with it, and the protocol names that it accepts by ALPN, in order of preference.
#[verifier::ext_equal]
pub struct ServerView {
    pub chain: Seq<Seq<u8>>,
    pub key: PrivateKeyView,
    pub protocols: Seq<Seq<u8>>,
}

/// The view of a list of runs of octets.
pub open spec fn octet_views(s: Seq<Vec<u8>>) -> Seq<Seq<u8>> {
    s.map_values(|v: Vec<u8>| v@)
}

/// The certificates in a PEM text, in order, or what was wrong with it.
pub uninterp spec fn pem_certificates(pem: Seq<u8>) -> Result<Seq<Seq<u8>>, Seq<char>>;

/// The first private key in a PEM text, or what was wrong with it.
pub uninterp spec fn pem_private_key(pem: Seq<u8>) -> Result<Option<PrivateKeyView>, Seq<char>>;

/// The trust anchor that a certificate is, or what was wrong with it.
pub uninterp spec fn anchor(der: Seq<u8>) -> Result<AnchorView, Seq<char>>;

/// The trust anchors in a store of roots.
pub uninterp spec fn anchors(store: RootCertStore) -> Seq<AnchorView>;

/// What a client's configuration holds.
pub uninterp spec fn client_view(config: ClientConfig) -> ClientView;

/// What a server's configuration holds.
pub uninterp spec fn server_view(config: ServerConfig) -> ServerView;

/// What the configuration of an acceptor holds.
pub uninterp spec fn acceptor_view(acceptor: TlsAcceptor) -> ServerView;

/// Whether a text can name a server in a certificate: a DNS name or an IP address.
pub uninterp spec fn names_a_server(name: Seq<char>) -> bool;

/// `rustls_pemfile::certs`, collected: the DER of each certificate section of a PEM text, in
/// order, or the first error met, as it displays itself.
#[verifier::external_body]
fn pem_certs(pem: &[u8]) -> (r: Result<Vec<Vec<u8>>, String>)
    ensures
        pem_certificates(pem@) == (match r {
            Ok(chain) => Ok(octet_views(chain@)),
            Err(error) => Err(error@),
        }),
{
    let mut reader = pem;
    let found: Result<Vec<CertificateDer<'static>>, _> =
        rustls_pemfile::certs(&mut reader).collect();
    match found {
        Ok(chain) => Ok(chain.iter().map(|der| der.to_vec()).collect()),
        Err(error) => Err(error.to_string()),
    }
}

/// `rustls_pemfile::private_key`: the DER of the first private key section of a PEM text and the
/// encoding it is in, or the error met before one, as it displays itself.
#[verifier::external_body]
fn pem_key(pem: &[u8]) -> (r: Result<Option<PrivateKey>, String>)
    ensures
        pem_private_key(pem@) == (match r {
            Ok(Some(key)) => Ok(Some(key@)),
            Ok(None) => Ok(None),
            Err(error) => Err(error@),
        }),
{
    let mut reader = pem;
    match rustls_pemfile::private_key(&mut reader) {
        Ok(Some(PrivateKeyDer::Pkcs1(key))) => {
            Ok(Some(PrivateKey::Pkcs1(key.secret_pkcs1_der().to_vec())))
        },
        Ok(Some(PrivateKeyDer::Sec1(key))) => {
            Ok(Some(PrivateKey::Sec1(key.secret_sec1_der().to_vec())))
        },
        Ok(Some(key)) => Ok(Some(PrivateKey::Pkcs8(key.secret_der().to_vec()))),
        Ok(None) => Ok(None),
        Err(error) => Err(error.to_string()),
    }
}

/// `RootCertStore::empty`, a store without roots.
pub assume_specification[ tokio_rustls::rustls::RootCertStore::empty ]() -> (store:
    tokio_rustls::rustls::RootCertStore)
    ensures
        anchors(store) == Seq::<AnchorView>::empty(),
;

/// `RootCertStore::add` puts the trust anchor that a certificate is behind those in the store,
/// or leaves the store as it was and says, in the text its error displays, what was wrong.
#[verifier::external_body]
fn add_root(store: &mut RootCertStore, der: &[u8]) -> (r: Result<(), String>)
    ensures
        match r {
            Ok(()) => {
                &&& anchor(der@) is Ok
                &&& anchors(*final(store)) == anchors(*old(store)).push(anchor(der@)->Ok_0)
            },
            Err(error) => {
                &&& anchor(der@) == Err::<AnchorView, Seq<char>>(error@)
                &&& anchors(*final(store)) == anchors(*old(store))
            },
        },
{
    store.add(CertificateDer::from(der)).map_err(|error| error.to_string())
}

/// `ClientConfig::builder`, with the roots of a store and no certificate of its own: the
/// configuration trusts those roots and nothing else, and offers no protocol by ALPN.
#[verifier::external_body]
fn trusting(store: RootCertStore) -> (config: ClientConfig)
    ensures
        client_view(config) == (ClientView { trusted: anchors(store), protocols: Seq::empty() }),
{
    ClientConfig::builder().with_root_certificates(store).with_no_client_auth()
}

/// `ServerConfig::builder`, with one certificate chain and its key and no client authentication:
/// a configuration that holds the two and accepts no protocol by ALPN or, in the text its error
/// displays, why they do not go together. Which it is rests on the cryptography that the process
/// uses, so nothing is said of it.
#[verifier::external_body]
fn single_cert(chain: Vec<Vec<u8>>, key: PrivateKey) -> (r: Result<ServerConfig, String>)
    ensures
        r matches Ok(config) ==> server_view(config) == (ServerView {
            chain: octet_views(chain@),
            key: key@,
            protocols: Seq::empty(),
        }),
{
    let chain = chain.into_iter().map(CertificateDer::from).collect();
    let key = match key {
        PrivateKey::Pkcs1(der) => PrivateKeyDer::from(PrivatePkcs1KeyDer::from(der)),
        PrivateKey::Sec1(der) => PrivateKeyDer::from(PrivateSec1KeyDer::from(der)),
        PrivateKey::Pkcs8(der) => PrivateKeyDer::from(PrivatePkcs8KeyDer::from(der)),
    };
    ServerConfig::builder()
        .with_no_client_auth()
        .with_single_cert(chain, key)
        .map_err(|error| error.to_string())
}

/// `ServerName::try_from`: whether a text can name a server.
#[verifier::external_body]
fn is_server_name(name: &str) -> (r: bool)
    ensures
        r == names_a_server(name@),
{
    ServerName::try_from(name).is_ok()
}

/// A certificate chain out of what a PEM text held: an error is one of ours, and so is a text
/// without a certificate.
pub open spec fn chain_of(found: Result<Seq<Seq<u8>>, Seq<char>>) -> Result<
    Seq<Seq<u8>>,
    ErrorView,
> {
    match found {
        Err(error) => Err(ErrorView::Certificate("unreadable certificate: "@ + error)),
        Ok(chain) => if chain.len() == 0 {
            Err(ErrorView::Certificate("no certificate found in the PEM given"@))
        } else {
            Ok(chain)
        },
    }
}

/// A private key out of what a PEM text held.
pub open spec fn key_of(found: Result<Option<PrivateKeyView>, Seq<char>>) -> Result<
    PrivateKeyView,
    ErrorView,
> {
    match found {
        Err(error) => Err(ErrorView::Certificate("unreadable private key: "@ + error)),
        Ok(None) => Err(ErrorView::Certificate("no private key found in the PEM given"@)),
        Ok(Some(key)) => Ok(key),
    }
}

/// A certificate chain out of what a PEM text held.
///
/// # Errors
///
/// Returns [`Error::Certificate`] where the text could not be read or held no certificate.
pub fn chain_from(found: Result<Vec<Vec<u8>>, String>) -> (r: Result<Vec<Vec<u8>>, Error>)
    ensures
        chain_of(
            match found {
                Ok(chain) => Ok(octet_views(chain@)),
                Err(error) => Err(error@),
            },
        ) == (match r {
            Ok(chain) => Ok(octet_views(chain@)),
            Err(e) => Err(e@),
        }),
{
    proof {
        reveal_strlit("");
    }
    match found {
        Err(error) => Err(
            Error::Certificate(joined("unreadable certificate: ", error.as_str(), "")),
        ),
        Ok(chain) => {
            if chain.len() == 0 {
                return Err(
                    Error::Certificate("no certificate found in the PEM given".to_owned()),
                );
            }
            Ok(chain)
        },
    }
}

/// A private key out of what a PEM text held.
///
/// # Errors
///
/// Returns [`Error::Certificate`] where the text could not be read or held no key.
pub fn key_from(found: Result<Option<PrivateKey>, String>) -> (r: Result<PrivateKey, Error>)
    ensures
        key_of(
            match found {
                Ok(Some(key)) => Ok(Some(key@)),
                Ok(None) => Ok(None),
                Err(error) => Err(error@),
            },
        ) == (match r {
            Ok(key) => Ok(key@),
            Err(e) => Err(e@),
        }),
{
    proof {
        reveal_strlit("");
    }
    match found {
        Err(error) => Err(
            Error::Certificate(joined("unreadable private key: ", error.as_str(), "")),
        ),
        Ok(None) => Err(Error::Certificate("no private key found in the PEM given".to_owned())),
        Ok(Some(key)) => Ok(key),
    }
}

/// Reads a PEM certificate chain: the DER of each certificate, in order.
///
/// # Errors
///
/// Returns [`Error::Certificate`] where the text cannot be read or holds no certificate.
pub fn read_certificates(pem: &[u8]) -> (r: Result<Vec<Vec<u8>>, Error>)
    ensures
        chain_of(pem_certificates(pem@)) == (match r {
            Ok(chain) => Ok(octet_views(chain@)),
            Err(e) => Err(e@),
        }),
{
    chain_from(pem_certs(pem))
}

/// Reads a PEM private key in any of the encodings rustls accepts.
///
/// # Errors
///
/// Returns [`Error::Certificate`] where the text cannot be read or holds no key.
pub fn read_key(pem: &[u8]) -> (r: Result<PrivateKey, Error>)
    ensures
        key_of(pem_private_key(pem@)) == (match r {
            Ok(key) => Ok(key@),
            Err(e) => Err(e@),
        }),
{
    key_from(pem_key(pem))
}

/// A server's configuration out of what building one gave.
///
/// # Errors
///
/// Returns [`Error::Certificate`] where none was built.
pub fn config_from(built: Result<ServerConfig, String>) -> (r: Result<ServerConfig, Error>)
    ensures
        match (built, r) {
            (Ok(config), Ok(given)) => given == config,
            (Err(error), Err(e)) => e@ == ErrorView::Certificate(
                "certificate and key do not go together: "@ + error@,
            ),
            _ => false,
        },
{
    proof {
        reveal_strlit("");
    }
    match built {
        Ok(config) => Ok(config),
        Err(error) => Err(
            Error::Certificate(
                joined("certificate and key do not go together: ", error.as_str(), ""),
            ),
        ),
    }
}

/// Builds a server configuration from PEM certificates and a PEM private key.
///
/// # Errors
///
/// Returns [`Error::Certificate`] if either cannot be parsed, or if they do not go together.
pub fn server_config(certificates: &[u8], key: &[u8]) -> (r: Result<ServerConfig, Error>)
    ensures
        match chain_of(pem_certificates(certificates@)) {
            Err(e) => r is Err && r->Err_0@ == e,
            Ok(chain) => match key_of(pem_private_key(key@)) {
                Err(e) => r is Err && r->Err_0@ == e,
                Ok(key) => match r {
                    Ok(config) => server_view(config) == (ServerView {
                        chain,
                        key,
                        protocols: Seq::empty(),
                    }),
                    Err(e) => exists|error: Seq<char>|
                        e@ == ErrorView::Certificate(
                            #[trigger] ("certificate and key do not go together: "@ + error),
                        ),
                },
            },
        },
{
    let chain = match read_certificates(certificates) {
        Ok(chain) => chain,
        Err(e) => return Err(e),
    };
    let key = match read_key(key) {
        Ok(key) => key,
        Err(e) => return Err(e),
    };
    config_from(single_cert(chain, key))
}

/// The trust anchors of a chain, or the first certificate's fault that makes it none.
pub open spec fn anchors_of(chain: Seq<Seq<u8>>) -> Result<Seq<AnchorView>, Seq<char>>
    decreases chain.len(),
{
    if chain.len() == 0 {
        Ok(Seq::empty())
    } else {
        match anchors_of(chain.drop_last()) {
            Err(error) => Err(error),
            Ok(before) => match anchor(chain.last()) {
                Err(error) => Err(error),
                Ok(a) => Ok(before.push(a)),
            },
        }
    }
}

/// A certificate that is no anchor decides for every chain that begins with those up to it.
proof fn lemma_anchors_stop(chain: Seq<Seq<u8>>, i: int)
    requires
        0 <= i <= chain.len(),
    ensures
        anchors_of(chain.take(i)) is Err ==> anchors_of(chain) == anchors_of(chain.take(i)),
    decreases chain.len() - i,
{
    if i < chain.len() {
        lemma_anchors_stop(chain, i + 1);
        assert(chain.take(i + 1).drop_last() =~= chain.take(i));
    } else {
        assert(chain.take(i) =~= chain);
    }
}

/// Builds a client configuration trusting the given PEM certificates and nothing else.
///
/// # Errors
///
/// Returns [`Error::Certificate`] if they cannot be parsed.
pub fn client_config(roots: &[u8]) -> (r: Result<ClientConfig, Error>)
    ensures
        match chain_of(pem_certificates(roots@)) {
            Err(e) => r is Err && r->Err_0@ == e,
            Ok(chain) => match anchors_of(chain) {
                Err(error) => r is Err && r->Err_0@ == ErrorView::Certificate(
                    "not a usable root: "@ + error,
                ),
                Ok(all) => {
                    &&& r is Ok
                    &&& client_view(r->Ok_0) == (ClientView {
                        trusted: all,
                        protocols: Seq::empty(),
                    })
                },
            },
        },
{
    let chain = match read_certificates(roots) {
        Ok(chain) => chain,
        Err(e) => return Err(e),
    };
    let ghost views = octet_views(chain@);
    let mut store = RootCertStore::empty();
    let mut i: usize = 0;
    assert(anchors_of(views.take(0)) == Ok::<Seq<AnchorView>, Seq<char>>(Seq::empty()));
    while i < chain.len()
        invariant
            i <= chain@.len(),
            views == octet_views(chain@),
            anchors_of(views.take(i as int)) == Ok::<Seq<AnchorView>, Seq<char>>(anchors(store)),
            chain_of(pem_certificates(roots@)) == Ok::<Seq<Seq<u8>>, ErrorView>(views),
        decreases chain@.len() - i,
    {
        proof {
            reveal_strlit("");
            assert(views.take(i + 1).drop_last() =~= views.take(i as int));
            assert(views.take(i + 1).last() == chain@[i as int]@);
            lemma_anchors_stop(views, i + 1);
        }
        if let Err(error) = add_root(&mut store, chain[i].as_slice()) {
            return Err(Error::Certificate(joined("not a usable root: ", error.as_str(), "")));
        }
        i += 1;
    }
    assert(views.take(i as int) =~= views);
    Ok(trusting(store))
}

/// Checks that a text can name the server that a certificate is checked against.
///
/// # Errors
///
/// Returns [`Error::Certificate`] where it is neither a DNS name nor an IP address.
pub fn check_server_name(name: &str) -> (r: Result<(), Error>)
    ensures
        match r {
            Ok(()) => names_a_server(name@),
            Err(e) => {
                &&& !names_a_server(name@)
                &&& e@ == ErrorView::Certificate(quoted(name@) + " is not a valid server name"@)
            },
        },
{
    if is_server_name(name) {
        return Ok(());
    }
    let mut reason = quote(name);
    reason.push_str(" is not a valid server name");
    Err(Error::Certificate(reason))
}

/// The profile is offered with `<ready />` and taken up with `<proceed />`, both literal, under its
/// own URI; the one who takes it up answers with the URI that was asked for. A start without
/// `<ready />` is refused with the code for a failed transaction.
pub proof fn law_the_profile_is_tuned_by_piggyback(uri: Seq<char>)
    ensures
        offer_view() == (ProfileView {
            uri: "http://iana.org/beep/TLS"@,
            encoding: Encoding::Literal,
            content: Some("<ready />"@),
        }),
        acceptance_view(uri) == (ProfileView {
            uri,
            encoding: Encoding::Literal,
            content: Some("<proceed />"@),
        }),
        refusal_view().code == 554,
        refusal_view().text is Some,
{
}

/// What is piggybacked on a start for a profile is the content of the first profile of that URI in
/// it.
pub proof fn law_the_first_offer_of_a_profile_counts(start: StartView, uri: Seq<char>, i: int)
    ensures
        0 <= i < start.profiles.len() && start.profiles[i].uri == uri && (forall|j: int|
            0 <= j < i ==> (#[trigger] start.profiles[j]).uri != uri) ==> piggybacked(start, uri)
            == start.profiles[i].content,
        (forall|j: int| 0 <= j < start.profiles.len() ==> (#[trigger] start.profiles[j]).uri != uri)
            ==> piggybacked(start, uri) is None,
{
    let stop = |p: ProfileView| p.uri == uri;
    if 0 <= i < start.profiles.len() && start.profiles[i].uri == uri && (forall|j: int|
        0 <= j < i ==> (#[trigger] start.profiles[j]).uri != uri) {
        assert(stop(start.profiles[i]));
        assert forall|j: int| 0 <= j < i implies !stop(#[trigger] start.profiles[j]) by {
            assert(start.profiles[j].uri != uri);
        }
        text::lemma_until_is(start.profiles, stop, i);
    }
    if forall|j: int| 0 <= j < start.profiles.len() ==> (#[trigger] start.profiles[j]).uri != uri {
        assert forall|j: int| 0 <= j < start.profiles.len() implies !stop(
            #[trigger] start.profiles[j],
        ) by {
            assert(start.profiles[j].uri != uri);
        }
        text::lemma_until_is(start.profiles, stop, start.profiles.len() as int);
    }
}

/// A connection opens as TLS does exactly where its first two octets are those of a handshake
/// record of its third version.
pub proof fn law_tls_opens_with_a_handshake_record(prefix: Seq<u8>)
    ensures
        opens_tls(prefix) <==> prefix.len() >= 2 && prefix.take(2) == seq![22u8, 3],
{
    if prefix.len() >= 2 {
        assert(prefix.take(2) =~= seq![prefix[0], prefix[1]]);
        assert(seq![22u8, 3][0] == 22 && seq![22u8, 3][1] == 3);
    }
}

/// A chain is what was found, where that is any certificate at all, and a key is the one found;
/// what could not be read, and what was not there, is said.
pub proof fn law_what_is_found_is_used(
    chain: Result<Seq<Seq<u8>>, Seq<char>>,
    key: Result<Option<PrivateKeyView>, Seq<char>>,
)
    ensures
        chain matches Ok(c) && c.len() > 0 ==> chain_of(chain) == Ok::<Seq<Seq<u8>>, ErrorView>(
            chain->Ok_0,
        ),
        chain_of(chain) is Ok ==> chain is Ok && chain->Ok_0.len() > 0,
        chain_of(chain) matches Err(e) ==> e is Certificate,
        key matches Ok(Some(k)) ==> key_of(key) == Ok::<PrivateKeyView, ErrorView>(k),
        key_of(key) is Ok ==> key is Ok && key->Ok_0 is Some,
        key_of(key) matches Err(e) ==> e is Certificate,
{
}

/// The trust anchors of a chain are those of its certificates, one for one and in order; a
/// certificate that is none leaves the chain without.
pub proof fn law_every_certificate_is_an_anchor(chain: Seq<Seq<u8>>)
    ensures
        match anchors_of(chain) {
            Ok(found) => found.len() == chain.len() && forall|i: int|
                0 <= i < chain.len() ==> anchor(#[trigger] chain[i]) == Ok::<
                    AnchorView,
                    Seq<char>,
                >(found[i]),
            Err(error) => exists|i: int|
                0 <= i < chain.len() && anchor(#[trigger] chain[i]) == Err::<
                    AnchorView,
                    Seq<char>,
                >(error) && forall|j: int| 0 <= j < i ==> anchor(#[trigger] chain[j]) is Ok,
        },
    decreases chain.len(),
{
    if chain.len() > 0 {
        let init = chain.drop_last();
        let last = chain.len() - 1;
        law_every_certificate_is_an_anchor(init);
        match anchors_of(init) {
            Ok(before) => {
                assert forall|j: int| 0 <= j < last implies anchor(#[trigger] chain[j]) == Ok::<
                    AnchorView,
                    Seq<char>,
                >(before[j]) by {
                    assert(init[j] == chain[j]);
                }
                assert(anchor(chain[last]) == anchor(chain.last()));
            },
            Err(error) => {
                let i = choose|i: int|
                    0 <= i < init.len() && anchor(#[trigger] init[i]) == Err::<
                        AnchorView,
                        Seq<char>,
                    >(error) && forall|j: int| 0 <= j < i ==> anchor(#[trigger] init[j]) is Ok;
                assert(chain[i] == init[i]);
                assert forall|j: int| 0 <= j < i implies anchor(#[trigger] chain[j]) is Ok by {
                    assert(init[j] == chain[j]);
                }
            },
        }
    }
}

} // verus!
