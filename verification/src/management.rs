//! Channel-management messages: the `<start>`, `<close>`, `<profile>`, `<ok>` and `<error>`
//! elements BEEP exchanges on channel 0 (RFC 3080, section 2.3.1).
//!
//! Four exchanges make up the whole vocabulary:
//!
//! | Request | Positive reply | Negative reply |
//! |---|---|---|
//! | `<start>` | `<profile>` | `<error>` |
//! | `<close>` | `<ok />` | `<error>` |
//!
//! All of them travel as `application/beep+xml` payloads: `<start>` and `<close>` in a
//! `MSG`, the positive replies in an `RPY`, and `<error>` in an `ERR`. Enforcing that
//! pairing is the session layer's job; this module only reads and writes the elements.

use crate::decimal;
use crate::error::Error;
use crate::greeting;
use crate::mime;
use crate::octets;
use crate::text;
use crate::xml::{self, Element, ElementView};
use bytes::Bytes;
use vstd::prelude::*;
use vstd::utf8;

pub mod code;
pub mod vocabulary;

verus! {

/// How the content piggybacked on a profile element is encoded.
#[derive(Debug, Clone, Copy, PartialEq, Eq, Structural)]
pub enum Encoding {
    /// Carried literally, announced with `encoding='none'` or by leaving the attribute out.
    Literal,
    /// Base64, announced with `encoding='base64'`.
    Base64,
}

impl Default for Encoding {
    fn default() -> (r: Encoding)
        ensures
            r == Encoding::Literal,
    {
        Encoding::Literal
    }
}

/// The encoding that an attribute value announces.
pub open spec fn encoding_of(value: Option<Seq<char>>) -> Result<Encoding, Error> {
    match value {
        None => Ok(Encoding::Literal),
        Some(v) => if v == "none"@ {
            Ok(Encoding::Literal)
        } else if v == "base64"@ {
            Ok(Encoding::Base64)
        } else {
            Err(Error::Xml { reason: "encoding must be 'none' or 'base64'" })
        },
    }
}

impl Encoding {
    fn parse(value: Option<&str>) -> (r: Result<Encoding, Error>)
        ensures
            r == encoding_of(greeting::str_view(value)),
    {
        match value {
            None => Ok(Encoding::Literal),
            Some(v) => if xml::same_text(v, "none") {
                Ok(Encoding::Literal)
            } else if xml::same_text(v, "base64") {
                Ok(Encoding::Base64)
            } else {
                Err(Error::Xml { reason: "encoding must be 'none' or 'base64'" })
            },
        }
    }
}

/// What a profile element says.
#[verifier::ext_equal]
pub struct ProfileView {
    pub uri: Seq<char>,
    pub encoding: Encoding,
    pub content: Option<Seq<char>>,
}

impl ProfileView {
    /// The `<profile>` element as it is written.
    pub open spec fn text(self) -> Seq<char> {
        "<profile uri='"@ + xml::escaped(self.uri) + "'"@ + (if self.encoding == Encoding::Base64 {
            " encoding='base64'"@
        } else {
            Seq::empty()
        }) + (match self.content {
            None => " />"@,
            Some(content) => ">"@ + (xml::cdata_open() + xml::sectioned(content)
                + xml::cdata_close()) + "</profile>"@,
        })
    }

    /// The profile that an element gives.
    pub open spec fn of_element(e: ElementView) -> Result<ProfileView, Error> {
        match e.attr("uri"@) {
            None => Err(Error::Xml { reason: "profile element without a uri attribute" }),
            Some(uri) => match encoding_of(e.attr("encoding"@)) {
                Err(e) => Err(e),
                Ok(encoding) => Ok(
                    ProfileView {
                        uri,
                        encoding,
                        content: if e.text.len() == 0 {
                            None
                        } else {
                            Some(e.text)
                        },
                    },
                ),
            },
        }
    }
}

/// A profile offered in a `<start>`, or confirmed in the reply to one.
#[derive(Debug, PartialEq, Eq)]
pub struct Profile {
    /// The profile URI.
    pub uri: String,
    /// How [`Profile::content`] is encoded.
    pub encoding: Encoding,
    /// Content piggybacked on the channel creation, if any.
    pub content: Option<String>,
}

impl View for Profile {
    type V = ProfileView;

    open spec fn view(&self) -> ProfileView {
        ProfileView {
            uri: self.uri@,
            encoding: self.encoding,
            content: greeting::text_view(self.content),
        }
    }
}

impl Clone for Profile {
    fn clone(&self) -> (r: Profile)
        ensures
            r@ == self@,
    {
        Profile {
            uri: self.uri.as_str().to_owned(),
            encoding: self.encoding,
            content: greeting::copy_text(&self.content),
        }
    }
}

impl Profile {
    /// A profile offered with no piggybacked content.
    #[must_use]
    pub fn new(uri: &str) -> (r: Profile)
        ensures
            r@ == (ProfileView { uri: uri@, encoding: Encoding::Literal, content: None }),
    {
        Profile { uri: uri.to_owned(), encoding: Encoding::Literal, content: None }
    }

    /// Attaches literal content to piggyback on the exchange.
    #[must_use]
    pub fn with_content(self, content: &str) -> (r: Profile)
        ensures
            r@ == (ProfileView { content: Some(content@), ..self@ }),
    {
        Profile { uri: self.uri, encoding: self.encoding, content: Some(content.to_owned()) }
    }

    /// Attaches base64 content, announced with `encoding='base64'`.
    #[must_use]
    pub fn with_base64_content(self, content: &str) -> (r: Profile)
        ensures
            r@ == (ProfileView {
                uri: self@.uri,
                encoding: Encoding::Base64,
                content: Some(content@),
            }),
    {
        Profile { uri: self.uri, encoding: Encoding::Base64, content: Some(content.to_owned()) }
    }

    fn parse(element: &Element<'_>) -> (r: Result<Profile, Error>)
        ensures
            ProfileView::of_element(element@) == (match r {
                Ok(p) => Ok::<ProfileView, Error>(p@),
                Err(e) => Err::<ProfileView, Error>(e),
            }),
    {
        let uri = match element.attr("uri") {
            Some(uri) => uri,
            None => return Err(
                Error::Xml { reason: "profile element without a uri attribute" },
            ),
        };
        let encoding = Encoding::parse(element.attr("encoding"))?;
        Ok(
            Profile {
                uri: uri.to_owned(),
                encoding,
                content: if element.text.as_str().is_empty() {
                    None
                } else {
                    Some(element.text.as_str().to_owned())
                },
            },
        )
    }

    fn render(&self, out: &mut String)
        ensures
            final(out)@ == old(out)@ + self@.text(),
    {
        let ghost before = out@;
        out.push_str("<profile uri='");
        xml::escape(out, self.uri.as_str());
        out.push_str("'");
        if self.encoding == Encoding::Base64 {
            out.push_str(" encoding='base64'");
        }
        match &self.content {
            None => out.push_str(" />"),
            Some(content) => {
                out.push_str(">");
                xml::push_cdata(out, content.as_str());
                out.push_str("</profile>");
            },
        }
        assert(out@ =~= before + self@.text());
    }
}

/// The view of a list of profiles.
pub open spec fn profile_views(s: Seq<Profile>) -> Seq<ProfileView> {
    s.map_values(|p: Profile| p@)
}

/// What a `<start>` says.
#[verifier::ext_equal]
pub struct StartView {
    pub number: u32,
    pub server_name: Option<Seq<char>>,
    pub profiles: Seq<ProfileView>,
}

/// A request to create a channel.
#[derive(Debug, PartialEq, Eq)]
pub struct Start {
    /// The channel number being requested. Odd for the initiating peer, even for the
    /// listening one.
    pub number: u32,
    /// The virtual host the channel is for, carried in greetings afterwards.
    pub server_name: Option<String>,
    /// The profiles offered, in order of preference.
    pub profiles: Vec<Profile>,
}

impl View for Start {
    type V = StartView;

    open spec fn view(&self) -> StartView {
        StartView {
            number: self.number,
            server_name: greeting::text_view(self.server_name),
            profiles: profile_views(self.profiles@),
        }
    }
}

impl Clone for Start {
    fn clone(&self) -> (r: Start)
        ensures
            r@ == self@,
    {
        let mut profiles: Vec<Profile> = Vec::new();
        let mut i: usize = 0;
        while i < self.profiles.len()
            invariant
                i <= self.profiles@.len(),
                profile_views(profiles@) == profile_views(self.profiles@).take(i as int),
            decreases self.profiles@.len() - i,
        {
            let ghost before = profile_views(profiles@);
            profiles.push(self.profiles[i].clone());
            assert(profile_views(profiles@) =~= before.push(
                profile_views(self.profiles@)[i as int],
            ));
            i += 1;
            assert(profile_views(profiles@) =~= profile_views(self.profiles@).take(i as int));
        }
        assert(profile_views(profiles@) =~= profile_views(self.profiles@));
        Start { number: self.number, server_name: greeting::copy_text(&self.server_name), profiles }
    }
}

impl Start {
    /// A start requesting `number` with a single profile offered.
    #[must_use]
    pub fn new(number: u32, profile: Profile) -> (r: Start)
        ensures
            r@ == (StartView { number, server_name: None, profiles: seq![profile@] }),
    {
        let mut profiles: Vec<Profile> = Vec::new();
        profiles.push(profile);
        assert(profile_views(profiles@) =~= seq![profile@]);
        Start { number, server_name: None, profiles }
    }

    /// Sets the `serverName` attribute.
    #[must_use]
    pub fn with_server_name(self, name: &str) -> (r: Start)
        ensures
            r@ == (StartView { server_name: Some(name@), ..self@ }),
    {
        Start { number: self.number, server_name: Some(name.to_owned()), profiles: self.profiles }
    }

    /// Offers one more profile.
    #[must_use]
    pub fn offering(self, profile: Profile) -> (r: Start)
        ensures
            r@ == (StartView { profiles: self@.profiles.push(profile@), ..self@ }),
    {
        let mut profiles = self.profiles;
        profiles.push(profile);
        assert(profile_views(profiles@) =~= self@.profiles.push(profile@));
        Start { number: self.number, server_name: self.server_name, profiles }
    }
}

/// What a `<close>` says.
#[verifier::ext_equal]
pub struct CloseView {
    pub number: u32,
    pub code: u32,
    pub lang: Option<Seq<char>>,
    pub text: Option<Seq<char>>,
}

/// A request to close a channel, or the whole session when the number is zero.
#[derive(Debug, PartialEq, Eq)]
pub struct Close {
    /// The channel to close; zero closes the session.
    pub number: u32,
    /// The reply code explaining why, normally [`code::SUCCESS`].
    pub code: u32,
    /// Language of [`Close::text`].
    pub lang: Option<String>,
    /// Human readable explanation.
    pub text: Option<String>,
}

impl View for Close {
    type V = CloseView;

    open spec fn view(&self) -> CloseView {
        CloseView {
            number: self.number,
            code: self.code,
            lang: greeting::text_view(self.lang),
            text: greeting::text_view(self.text),
        }
    }
}

impl Clone for Close {
    fn clone(&self) -> (r: Close)
        ensures
            r@ == self@,
    {
        Close {
            number: self.number,
            code: self.code,
            lang: greeting::copy_text(&self.lang),
            text: greeting::copy_text(&self.text),
        }
    }
}

impl Close {
    /// A successful close of the given channel.
    #[must_use]
    pub fn new(number: u32) -> (r: Close)
        ensures
            r@ == (CloseView { number, code: code::SUCCESS, lang: None, text: None }),
    {
        Close { number, code: code::SUCCESS, lang: None, text: None }
    }

    /// Sets the reply code.
    #[must_use]
    pub fn with_code(self, code: u32) -> (r: Close)
        ensures
            r@ == (CloseView { code, ..self@ }),
    {
        Close { number: self.number, code, lang: self.lang, text: self.text }
    }

    /// Attaches an explanation, optionally tagged with a language.
    #[must_use]
    pub fn with_text(self, text: &str, lang: Option<String>) -> (r: Close)
        ensures
            r@ == (CloseView { text: Some(text@), lang: greeting::text_view(lang), ..self@ }),
    {
        Close { number: self.number, code: self.code, lang, text: Some(text.to_owned()) }
    }
}

/// What an `<error>` says.
#[verifier::ext_equal]
pub struct ErrorReplyView {
    pub code: u32,
    pub lang: Option<Seq<char>>,
    pub text: Option<Seq<char>>,
}

/// A refusal, sent in an `ERR` frame.
#[derive(Debug, PartialEq, Eq)]
pub struct ErrorReply {
    /// The reply code, one of the constants in [`code`].
    pub code: u32,
    /// Language of [`ErrorReply::text`].
    pub lang: Option<String>,
    /// Human readable explanation.
    pub text: Option<String>,
}

impl View for ErrorReply {
    type V = ErrorReplyView;

    open spec fn view(&self) -> ErrorReplyView {
        ErrorReplyView {
            code: self.code,
            lang: greeting::text_view(self.lang),
            text: greeting::text_view(self.text),
        }
    }
}

impl Clone for ErrorReply {
    fn clone(&self) -> (r: ErrorReply)
        ensures
            r@ == self@,
    {
        ErrorReply {
            code: self.code,
            lang: greeting::copy_text(&self.lang),
            text: greeting::copy_text(&self.text),
        }
    }
}

impl ErrorReply {
    /// A refusal carrying just a code.
    #[must_use]
    pub fn new(code: u32) -> (r: ErrorReply)
        ensures
            r@ == (ErrorReplyView { code, lang: None, text: None }),
    {
        ErrorReply { code, lang: None, text: None }
    }

    /// Attaches an explanation, optionally tagged with a language.
    #[must_use]
    pub fn with_text(self, text: &str, lang: Option<String>) -> (r: ErrorReply)
        ensures
            r@ == (ErrorReplyView { text: Some(text@), lang: greeting::text_view(lang), ..self@ }),
    {
        ErrorReply { code: self.code, lang, text: Some(text.to_owned()) }
    }
}

/// What a channel-management message says.
#[verifier::ext_equal]
pub enum ManagementView {
    Start(StartView),
    Close(CloseView),
    Profile(ProfileView),
    Okay,
    Error(ErrorReplyView),
}

/// Any channel-management message.
#[derive(Debug, PartialEq, Eq)]
pub enum Message {
    /// `<start>`, asking for a channel.
    Start(Start),
    /// `<close>`, asking to close a channel or the session.
    Close(Close),
    /// `<profile>`, a start accepted.
    Profile(Profile),
    /// `<ok />`, a close accepted.
    Okay,
    /// `<error>`, a request refused.
    Error(ErrorReply),
}

impl View for Message {
    type V = ManagementView;

    open spec fn view(&self) -> ManagementView {
        match self {
            Message::Start(m) => ManagementView::Start(m@),
            Message::Close(m) => ManagementView::Close(m@),
            Message::Profile(m) => ManagementView::Profile(m@),
            Message::Okay => ManagementView::Okay,
            Message::Error(m) => ManagementView::Error(m@),
        }
    }
}

impl Clone for Message {
    fn clone(&self) -> (r: Message)
        ensures
            r@ == self@,
    {
        match self {
            Message::Start(m) => Message::Start(m.clone()),
            Message::Close(m) => Message::Close(m.clone()),
            Message::Profile(m) => Message::Profile(m.clone()),
            Message::Okay => Message::Okay,
            Message::Error(m) => Message::Error(m.clone()),
        }
    }
}

/// The lines of a `<start>` that offer its profiles.
pub open spec fn offer_lines(profiles: Seq<ProfileView>) -> Seq<char>
    decreases profiles.len(),
{
    if profiles.len() == 0 {
        Seq::empty()
    } else {
        "   "@ + profiles[0].text() + "\r\n"@ + offer_lines(profiles.drop_first())
    }
}

/// The end of a `<close>` or `<error>`: its language, its text and its closing.
pub open spec fn explanation_text(
    lang: Option<Seq<char>>,
    text: Option<Seq<char>>,
    tag: Seq<char>,
) -> Seq<char> {
    (match lang {
        Some(lang) => " xml:lang='"@ + xml::escaped(lang) + "'"@,
        None => Seq::empty(),
    }) + (match text {
        None => " />\r\n"@,
        Some(text) => ">"@ + xml::escaped(text) + "</"@ + tag + ">\r\n"@,
    })
}

/// The number that an attribute writes in decimal.
pub open spec fn number_attr(e: ElementView, name: &'static str) -> Result<u32, Error> {
    match e.attr(name@) {
        None => Err(Error::MissingField { field: name }),
        Some(raw) => match xml::digits_value(raw, 10) {
            None => Err(Error::InvalidDigit { field: name }),
            Some(n) => if raw.len() == 0 {
                Err(Error::InvalidDigit { field: name })
            } else if n > u32::MAX {
                Err(Error::ValueOutOfRange { field: name, max: u32::MAX })
            } else {
                Ok(n as u32)
            },
        },
    }
}

/// The text of an element without white space at either end, if anything is left of it.
pub open spec fn element_text(e: ElementView) -> Option<Seq<char>> {
    let trimmed = text::trimmed_white(e.text);
    if trimmed.len() == 0 {
        None
    } else {
        Some(trimmed)
    }
}

/// The profiles that a list of `<profile>` elements gives. The first that is wrong decides the
/// error.
pub open spec fn profiles_of(children: Seq<ElementView>) -> Result<Seq<ProfileView>, Error>
    decreases children.len(),
{
    if children.len() == 0 {
        Ok(Seq::empty())
    } else {
        match (profiles_of(children.drop_last()), ProfileView::of_element(children.last())) {
            (Err(e), _) => Err(e),
            (_, Err(e)) => Err(e),
            (Ok(profiles), Ok(profile)) => Ok(profiles.push(profile)),
        }
    }
}

impl ManagementView {
    /// The document that carries the message.
    pub open spec fn document(self) -> Seq<char> {
        match self {
            ManagementView::Start(m) => "<start number='"@ + decimal::decimal_text(m.number as nat)
                + "'"@ + (match m.server_name {
                Some(name) => " serverName='"@ + xml::escaped(name) + "'"@,
                None => Seq::empty(),
            }) + ">\r\n"@ + offer_lines(m.profiles) + "</start>\r\n"@,
            ManagementView::Close(m) => "<close number='"@ + decimal::decimal_text(m.number as nat)
                + "' code='"@ + decimal::decimal_text(m.code as nat) + "'"@ + explanation_text(
                m.lang,
                m.text,
                "close"@,
            ),
            ManagementView::Profile(m) => m.text() + "\r\n"@,
            ManagementView::Okay => "<ok />"@,
            ManagementView::Error(m) => "<error code='"@ + decimal::decimal_text(m.code as nat)
                + "'"@ + explanation_text(m.lang, m.text, "error"@),
        }
    }

    /// The octets of the payload that carries the message.
    pub open spec fn payload(self) -> Seq<u8> {
        utf8::encode_utf8(mime::beep_xml_text(self.document()))
    }

    /// The message that a document gives.
    pub open spec fn of_element(root: ElementView) -> Result<ManagementView, Error> {
        if root.name == "start"@ {
            match (number_attr(root, "number"), profiles_of(root.children_named("profile"@))) {
                (Err(e), _) => Err(e),
                (_, Err(e)) => Err(e),
                (Ok(number), Ok(profiles)) => Ok(
                    ManagementView::Start(
                        StartView { number, server_name: root.attr("serverName"@), profiles },
                    ),
                ),
            }
        } else if root.name == "close"@ {
            match (number_attr(root, "number"), number_attr(root, "code")) {
                (Err(e), _) => Err(e),
                (_, Err(e)) => Err(e),
                (Ok(number), Ok(code)) => Ok(
                    ManagementView::Close(
                        CloseView {
                            number,
                            code,
                            lang: root.attr("xml:lang"@),
                            text: element_text(root),
                        },
                    ),
                ),
            }
        } else if root.name == "profile"@ {
            match ProfileView::of_element(root) {
                Err(e) => Err(e),
                Ok(profile) => Ok(ManagementView::Profile(profile)),
            }
        } else if root.name == "ok"@ {
            Ok(ManagementView::Okay)
        } else if root.name == "error"@ {
            match number_attr(root, "code") {
                Err(e) => Err(e),
                Ok(code) => Ok(
                    ManagementView::Error(
                        ErrorReplyView {
                            code,
                            lang: root.attr("xml:lang"@),
                            text: element_text(root),
                        },
                    ),
                ),
            }
        } else {
            Err(Error::UnexpectedElement)
        }
    }

    /// The message that XML alone, without MIME headers, carries.
    pub open spec fn of_xml(body: Seq<u8>) -> Result<ManagementView, Error> {
        match xml::parsed(body) {
            Err(e) => Err(e),
            Ok(root) => ManagementView::of_element(root),
        }
    }

    /// The message that a payload carries.
    pub open spec fn of_payload(payload: Seq<u8>) -> Result<ManagementView, Error> {
        if !mime::is_beep_xml(payload) {
            Err(Error::NotBeepXml)
        } else {
            ManagementView::of_xml(mime::parts(payload).1)
        }
    }
}

/// The view of a message, or the error in its place.
pub open spec fn message_result(r: Result<Message, Error>) -> Result<ManagementView, Error> {
    match r {
        Ok(m) => Ok(m@),
        Err(e) => Err(e),
    }
}

impl Message {
    /// Parses a channel-management message from a BEEP payload, MIME headers included.
    ///
    /// # Errors
    ///
    /// Returns [`Error::NotBeepXml`] when the payload does not declare
    /// `Content-Type: application/beep+xml`, [`Error::NotUtf8`] when the document is not UTF-8,
    /// [`Error::UnexpectedElement`] when the root is not one of the five known elements, and
    /// [`Error::Xml`] when the document is malformed, a profile has no URI or its encoding is not
    /// known. Of a number that is called for, returns [`Error::MissingField`] when it is missing,
    /// [`Error::InvalidDigit`] when it is no number, and [`Error::ValueOutOfRange`] when it is
    /// too large.
    pub fn from_payload(payload: &[u8]) -> (r: Result<Message, Error>)
        ensures
            message_result(r) == ManagementView::of_payload(payload@),
    {
        match mime::beep_xml_body(payload) {
            Some(body) => Message::from_xml(body),
            None => Err(Error::NotBeepXml),
        }
    }

    /// Parses a channel-management message from the XML alone, without MIME headers.
    ///
    /// # Errors
    ///
    /// As [`Message::from_payload`], minus the content type check.
    pub fn from_xml(body: &[u8]) -> (r: Result<Message, Error>)
        ensures
            message_result(r) == ManagementView::of_xml(body@),
    {
        let root = xml::parse(body)?;
        if xml::same_text(root.name, "start") {
            let number: u32 = attr_u32(&root, "number")?;
            let profiles = parse_profiles(&root)?;
            Ok(
                Message::Start(
                    Start {
                        number,
                        server_name: greeting::own_text(root.attr("serverName")),
                        profiles,
                    },
                ),
            )
        } else if xml::same_text(root.name, "close") {
            let number: u32 = attr_u32(&root, "number")?;
            let code: u32 = attr_u32(&root, "code")?;
            Ok(
                Message::Close(
                    Close {
                        number,
                        code,
                        lang: greeting::own_text(root.attr("xml:lang")),
                        text: text_of(&root),
                    },
                ),
            )
        } else if xml::same_text(root.name, "profile") {
            let profile = Profile::parse(&root)?;
            Ok(Message::Profile(profile))
        } else if xml::same_text(root.name, "ok") {
            Ok(Message::Okay)
        } else if xml::same_text(root.name, "error") {
            let code: u32 = attr_u32(&root, "code")?;
            Ok(
                Message::Error(
                    ErrorReply {
                        code,
                        lang: greeting::own_text(root.attr("xml:lang")),
                        text: text_of(&root),
                    },
                ),
            )
        } else {
            Err(Error::UnexpectedElement)
        }
    }

    /// Renders the message as a BEEP payload, MIME headers included.
    #[must_use]
    pub fn to_payload(&self) -> (r: Bytes)
        ensures
            octets::octets(r) == self@.payload(),
    {
        let mut out = String::new();
        mime::push_beep_xml_headers(&mut out);
        self.render(&mut out);
        assert(out@ =~= mime::beep_xml_text(self@.document()));
        octets::bytes_from_string(out)
    }

    fn render(&self, out: &mut String)
        ensures
            final(out)@ == old(out)@ + self@.document(),
    {
        let ghost before = out@;
        match self {
            Message::Start(start) => {
                out.push_str("<start number='");
                decimal::push_decimal(out, start.number as u64);
                out.push_str("'");
                if let Some(name) = &start.server_name {
                    out.push_str(" serverName='");
                    xml::escape(out, name.as_str());
                    out.push_str("'");
                }
                out.push_str(">\r\n");
                render_profiles(out, &start.profiles);
                out.push_str("</start>\r\n");
            },
            Message::Close(close) => {
                out.push_str("<close number='");
                decimal::push_decimal(out, close.number as u64);
                out.push_str("' code='");
                decimal::push_decimal(out, close.code as u64);
                out.push_str("'");
                render_lang_and_text(
                    out,
                    greeting::borrow_text(&close.lang),
                    greeting::borrow_text(&close.text),
                    "close",
                );
            },
            Message::Profile(profile) => {
                profile.render(out);
                out.push_str("\r\n");
            },
            Message::Okay => out.push_str("<ok />"),
            Message::Error(error) => {
                out.push_str("<error code='");
                decimal::push_decimal(out, error.code as u64);
                out.push_str("'");
                render_lang_and_text(
                    out,
                    greeting::borrow_text(&error.lang),
                    greeting::borrow_text(&error.text),
                    "error",
                );
            },
        }
        assert(out@ =~= before + self@.document());
    }
}

/// Renders the profiles a `<start>` offers, one to a line.
fn render_profiles(out: &mut String, profiles: &Vec<Profile>)
    ensures
        final(out)@ == old(out)@ + offer_lines(profile_views(profiles@)),
{
    let ghost before = out@;
    let ghost all = profile_views(profiles@);
    let mut i: usize = 0;
    assert(all.skip(0) =~= all);
    while i < profiles.len()
        invariant
            i <= profiles@.len(),
            all == profile_views(profiles@),
            out@ + offer_lines(all.skip(i as int)) == before + offer_lines(all),
        decreases profiles@.len() - i,
    {
        let ghost so_far = out@;
        out.push_str("   ");
        profiles[i].render(out);
        out.push_str("\r\n");
        proof {
            let line = "   "@ + all[i as int].text() + "\r\n"@;
            let rest = offer_lines(all.skip(i + 1));
            assert(all.skip(i as int).drop_first() =~= all.skip(i + 1));
            assert(out@ =~= so_far + line);
            assert(out@ + rest =~= so_far + (line + rest));
        }
        i += 1;
    }
    assert(out@ =~= out@ + offer_lines(all.skip(i as int)));
}

/// Renders the optional `xml:lang` attribute and the optional text body shared by `<close>`
/// and `<error>`.
fn render_lang_and_text(out: &mut String, lang: Option<&str>, text: Option<&str>, tag: &str)
    ensures
        final(out)@ == old(out)@ + explanation_text(
            greeting::str_view(lang),
            greeting::str_view(text),
            tag@,
        ),
{
    let ghost before = out@;
    if let Some(lang) = lang {
        out.push_str(" xml:lang='");
        xml::escape(out, lang);
        out.push_str("'");
    }
    match text {
        None => out.push_str(" />\r\n"),
        Some(text) => {
            out.push_str(">");
            xml::escape(out, text);
            out.push_str("</");
            out.push_str(tag);
            out.push_str(">\r\n");
        },
    }
    assert(out@ =~= before + explanation_text(
        greeting::str_view(lang),
        greeting::str_view(text),
        tag@,
    ));
}

/// The profiles that the children of an element give.
fn parse_profiles(root: &Element<'_>) -> (r: Result<Vec<Profile>, Error>)
    ensures
        profiles_of(root@.children_named("profile"@)) == (match r {
            Ok(p) => Ok::<Seq<ProfileView>, Error>(profile_views(p@)),
            Err(e) => Err::<Seq<ProfileView>, Error>(e),
        }),
{
    let children = root.children_named("profile");
    let ghost all = root@.children_named("profile"@);
    let mut profiles: Vec<Profile> = Vec::new();
    let mut i: usize = 0;
    assert(all.take(0) =~= Seq::empty());
    assert(profile_views(profiles@) =~= Seq::empty());
    while i < children.len()
        invariant
            i <= children@.len(),
            all == root@.children_named("profile"@),
            all.len() == children@.len(),
            forall|j: int| 0 <= j < children@.len() ==> children@[j]@ == #[trigger] all[j],
            profiles_of(all.take(i as int)) == Ok::<Seq<ProfileView>, Error>(
                profile_views(profiles@),
            ),
        decreases children@.len() - i,
    {
        let ghost before = profile_views(profiles@);
        proof {
            assert(all.take(i + 1).drop_last() =~= all.take(i as int));
            assert(children@[i as int]@ == all[i as int]);
            lemma_profiles_of_front(all, i + 1);
        }
        match Profile::parse(children[i]) {
            Ok(profile) => {
                profiles.push(profile);
                assert(profile_views(profiles@) =~= before.push(profile@));
            },
            Err(e) => {
                return Err(e);
            },
        }
        i += 1;
    }
    assert(all.take(i as int) =~= all);
    Ok(profiles)
}

/// An error in the front of a list of profiles is the error of the list.
proof fn lemma_profiles_of_front(children: Seq<ElementView>, i: int)
    requires
        0 <= i <= children.len(),
    ensures
        profiles_of(children.take(i)) is Err ==> profiles_of(children) == profiles_of(
            children.take(i),
        ),
    decreases children.len() - i,
{
    if i < children.len() {
        lemma_profiles_of_front(children, i + 1);
        assert(children.take(i + 1).drop_last() =~= children.take(i));
    } else {
        assert(children.take(i) =~= children);
    }
}

fn text_of(element: &Element<'_>) -> (r: Option<String>)
    ensures
        greeting::text_view(r) == element_text(element@),
{
    let trimmed = text::trim_white(element.text.as_str());
    if trimmed.as_str().is_empty() {
        None
    } else {
        Some(trimmed)
    }
}

fn attr_u32(element: &Element<'_>, name: &'static str) -> (r: Result<u32, Error>)
    ensures
        r == number_attr(element@, name),
{
    let raw = match element.attr(name) {
        Some(raw) => raw,
        None => return Err(Error::MissingField { field: name }),
    };
    let chars = text::chars_of(raw);
    if chars.len() == 0 {
        return Err(Error::InvalidDigit { field: name });
    }
    if !all_digits(&chars) {
        return Err(Error::InvalidDigit { field: name });
    }
    assert(chars@.subrange(0, chars@.len() as int) =~= raw@);
    match xml::parse_unsigned(chars.as_slice(), 0, chars.len(), 10) {
        Some(n) => Ok(n),
        None => Err(Error::ValueOutOfRange { field: name, max: u32::MAX }),
    }
}

/// Whether a text is made of decimal digits alone.
fn all_digits(chars: &Vec<char>) -> (r: bool)
    ensures
        r == (xml::digits_value(chars@, 10) is Some),
        r && chars@.len() > 0 ==> chars@[0] != '+',
{
    let mut i: usize = 0;
    while i < chars.len()
        invariant
            i <= chars@.len(),
            xml::digits_value(chars@.take(i as int), 10) is Some,
            i > 0 ==> chars@[0] != '+',
        decreases chars@.len() - i,
    {
        let c = chars[i];
        proof {
            assert(chars@.take(i + 1).drop_last() =~= chars@.take(i as int));
            xml::lemma_digits_value_front(chars@, i + 1, 10);
        }
        if c < '0' || c > '9' {
            return false;
        }
        i += 1;
    }
    assert(chars@.take(i as int) =~= chars@);
    true
}

// ---- laws ------------------------------------------------------------------------

/// Whether a profile's content, if it has any, can be carried: it is not empty.
pub open spec fn carries(p: ProfileView) -> bool {
    p.content matches Some(content) ==> content.len() > 0
}

/// Whether an explanation, if there is one, can be carried: it is not empty, and neither begins
/// nor ends with white space.
pub open spec fn explains(text: Option<Seq<char>>) -> bool {
    text matches Some(t) ==> t.len() > 0 && text::trimmed_white(t) == t
}

impl ManagementView {
    /// Whether every part of a message can be carried as it is.
    pub open spec fn renderable(self) -> bool {
        match self {
            ManagementView::Start(m) => forall|i: int|
                0 <= i < m.profiles.len() ==> carries(#[trigger] m.profiles[i]),
            ManagementView::Close(m) => explains(m.text),
            ManagementView::Profile(p) => carries(p),
            ManagementView::Okay => true,
            ManagementView::Error(m) => explains(m.text),
        }
    }
}

/// The names messages are written with are names.
proof fn lemma_names()
    ensures
        xml::is_name("start"@),
        xml::is_name("close"@),
        xml::is_name("profile"@),
        xml::is_name("ok"@),
        xml::is_name("error"@),
        xml::is_name("number"@),
        xml::is_name("code"@),
        xml::is_name("serverName"@),
        xml::is_name("xml:lang"@),
        xml::is_name("uri"@),
        xml::is_name("encoding"@),
{
    reveal_strlit("start");
    reveal_strlit("close");
    reveal_strlit("profile");
    reveal_strlit("ok");
    reveal_strlit("error");
    reveal_strlit("number");
    reveal_strlit("code");
    reveal_strlit("serverName");
    reveal_strlit("xml:lang");
    reveal_strlit("uri");
    reveal_strlit("encoding");
}

/// The elements that carry messages differ in name, and so do the attributes of each.
proof fn lemma_names_differ()
    ensures
        "close"@ != "start"@,
        "profile"@ != "start"@,
        "profile"@ != "close"@,
        "ok"@ != "start"@,
        "ok"@ != "close"@,
        "ok"@ != "profile"@,
        "error"@ != "start"@,
        "error"@ != "close"@,
        "error"@ != "profile"@,
        "error"@ != "ok"@,
        "number"@ != "serverName"@,
        "number"@ != "code"@,
        "number"@ != "xml:lang"@,
        "code"@ != "xml:lang"@,
        "uri"@ != "encoding"@,
        "none"@ != "base64"@,
{
    reveal_strlit("start");
    reveal_strlit("close");
    reveal_strlit("profile");
    reveal_strlit("ok");
    reveal_strlit("error");
    reveal_strlit("number");
    reveal_strlit("code");
    reveal_strlit("serverName");
    reveal_strlit("xml:lang");
    reveal_strlit("uri");
    reveal_strlit("encoding");
    reveal_strlit("none");
    reveal_strlit("base64");
    assert("start"@[0] == 's');
    assert("close"@[0] == 'c');
    assert("profile"@[0] == 'p');
    assert("ok"@[0] == 'o');
    assert("error"@[0] == 'e');
    assert("number"@[0] == 'n');
    assert("serverName"@[0] == 's');
    assert("code"@[0] == 'c');
    assert("xml:lang"@[0] == 'x');
    assert("uri"@[0] == 'u');
    assert("encoding"@[0] == 'e');
    assert("none"@[0] == 'n');
    assert("base64"@[0] == 'b');
}

/// Text without any of the escaped characters is written as it is.
proof fn lemma_escaped_plain(value: Seq<char>)
    requires
        forall|i: int|
            0 <= i < value.len() ==> {
                let c = #[trigger] value[i];
                c != '&' && c != '<' && c != '>' && c != '\'' && c != '"'
            },
    ensures
        xml::escaped(value) == value,
    decreases value.len(),
{
    if value.len() > 0 {
        let rest = value.drop_first();
        assert forall|i: int| 0 <= i < rest.len() implies {
            let c = #[trigger] rest[i];
            c != '&' && c != '<' && c != '>' && c != '\'' && c != '"'
        } by {
            assert(rest[i] == value[i + 1]);
        }
        lemma_escaped_plain(rest);
        assert(xml::escaped(value) =~= value);
    }
}

/// A number is written as it is, and reads back.
proof fn lemma_decimal_text(n: u32)
    ensures
        xml::escaped(decimal::decimal_text(n as nat)) == decimal::decimal_text(n as nat),
        decimal::decimal_text(n as nat).len() > 0,
        xml::digits_value(decimal::decimal_text(n as nat), 10) == Some(n as nat),
{
    decimal::lemma_decimal(n as nat);
    let t = decimal::decimal_text(n as nat);
    assert forall|i: int| 0 <= i < t.len() implies {
        let c = #[trigger] t[i];
        c != '&' && c != '<' && c != '>' && c != '\'' && c != '"'
    } by {
        assert(decimal::is_digit(decimal::decimal(n as nat)[i]));
    }
    lemma_escaped_plain(t);
    lemma_digits_value(n as nat);
}

proof fn lemma_digits_value(n: nat)
    ensures
        xml::digits_value(decimal::decimal_text(n), 10) == Some(n),
    decreases n,
{
    let t = decimal::decimal_text(n);
    reveal_with_fuel(xml::digits_value, 2);
    decimal::lemma_decimal(n);
    assert(t.last() == decimal::digit_octet((n % 10) as int) as char) by {
        if n < 10 {
            assert(n % 10 == n);
        }
    }
    assert(xml::digit_value(t.last(), 10) == Some(n % 10));
    if n >= 10 {
        lemma_digits_value(n / 10);
        assert(t.drop_last() =~= decimal::decimal_text(n / 10));
    } else {
        assert(t.drop_last() =~= Seq::<char>::empty());
    }
}

/// The element that a profile is written as.
spec fn profile_element(p: ProfileView) -> ElementView {
    let uri = Seq::empty().push(("uri"@, p.uri));
    ElementView {
        name: "profile"@,
        attrs: if p.encoding == Encoding::Base64 {
            uri.push(("encoding"@, "base64"@))
        } else {
            uri
        },
        children: Seq::empty(),
        text: match p.content {
            Some(content) => content,
            None => Seq::empty(),
        },
    }
}

/// The element that a profile is written as gives the profile back.
proof fn lemma_profile_of_element(p: ProfileView)
    requires
        carries(p),
    ensures
        ProfileView::of_element(profile_element(p)) == Ok::<ProfileView, Error>(p),
{
    lemma_names_differ();
    reveal_with_fuel(xml::first_attr, 3);
    let attrs = profile_element(p).attrs;
    if p.encoding == Encoding::Base64 {
        assert(attrs.drop_first() =~= Seq::empty().push(("encoding"@, "base64"@)));
    } else {
        assert(attrs.drop_first() =~= Seq::empty());
    }
}

/// The start tag of a profile, after its name.
spec fn profile_attrs_text(p: ProfileView) -> Seq<char> {
    greeting::attr_text("uri"@, p.uri) + (if p.encoding == Encoding::Base64 {
        greeting::attr_text("encoding"@, "base64"@)
    } else {
        Seq::empty()
    })
}

/// A profile is written as its name, its attributes and its content.
proof fn lemma_profile_text_shape(p: ProfileView)
    ensures
        p.text() == seq!['<'] + "profile"@ + (profile_attrs_text(p) + (match p.content {
            None => seq![' ', '/', '>'],
            Some(content) => seq!['>'] + (xml::cdata_open() + xml::sectioned(content)
                + xml::cdata_close() + (seq!['<', '/'] + "profile"@ + seq!['>'])),
        })),
        profile_attrs_text(p).len() > 0,
        profile_attrs_text(p)[0] == ' ',
        p.text().len() > 1,
        p.text()[0] == '<',
        p.text()[1] == 'p',
{
    reveal_strlit("<profile uri='");
    reveal_strlit("'");
    reveal_strlit(" encoding='base64'");
    reveal_strlit(" />");
    reveal_strlit(">");
    reveal_strlit("</profile>");
    reveal_strlit("profile");
    reveal_strlit("uri");
    reveal_strlit("encoding");
    reveal_strlit("base64");
    reveal_strlit(" ");
    reveal_strlit("='");
    lemma_escaped_plain("base64"@);
    let closing = match p.content {
        None => seq![' ', '/', '>'],
        Some(content) => seq!['>'] + (xml::cdata_open() + xml::sectioned(content)
            + xml::cdata_close() + (seq!['<', '/'] + "profile"@ + seq!['>'])),
    };
    let written = match p.content {
        None => " />"@,
        Some(content) => ">"@ + (xml::cdata_open() + xml::sectioned(content)
            + xml::cdata_close()) + "</profile>"@,
    };
    assert(written =~= closing);
    let encoding = if p.encoding == Encoding::Base64 {
        " encoding='base64'"@
    } else {
        Seq::empty()
    };
    assert(encoding =~= if p.encoding == Encoding::Base64 {
        greeting::attr_text("encoding"@, "base64"@)
    } else {
        Seq::empty()
    });
    assert("<profile uri='"@ + xml::escaped(p.uri) + "'"@ =~= seq!['<'] + "profile"@
        + greeting::attr_text("uri"@, p.uri));
    assert(p.text() =~= seq!['<'] + "profile"@ + (profile_attrs_text(p) + closing));
    assert(profile_attrs_text(p)[0] == ' ');
    assert(p.text()[1] == "profile"@[0]);
}

/// A profile that was written reads back as its element.
proof fn lemma_profile_text(p: ProfileView, rest: Seq<char>, depth: nat)
    requires
        carries(p),
        depth <= xml::MAX_DEPTH,
    ensures
        xml::element(p.text() + rest, depth) == Ok::<(ElementView, Seq<char>), Error>(
            (profile_element(p), rest),
        ),
{
    lemma_names();
    lemma_profile_text_shape(p);
    let attrs = profile_element(p).attrs;
    let leaf = ElementView::leaf("profile"@, attrs);
    let end = seq!['<', '/'] + "profile"@ + seq!['>'];
    let after = match p.content {
        None => seq![' ', '/', '>'] + rest,
        Some(content) => seq!['>'] + (xml::cdata_open() + xml::sectioned(content)
            + xml::cdata_close() + (end + rest)),
    };
    let s1 = profile_attrs_text(p) + after;
    assert(p.text() + rest =~= seq!['<'] + "profile"@ + s1);
    assert(s1[0] == ' ');
    xml::lemma_element("profile"@, s1, depth);
    lemma_profile_attrs(p, after);
    match p.content {
        None => {
            xml::lemma_tag_closed(rest, attrs);
            assert(leaf =~= profile_element(p));
        },
        Some(content) => {
            let inner = xml::cdata_open() + xml::sectioned(content) + xml::cdata_close() + (end
                + rest);
            xml::lemma_tag_open(inner, attrs);
            xml::lemma_content_sections(leaf, content, end + rest, depth);
            let full = ElementView { text: leaf.text + content, ..leaf };
            assert(full =~= profile_element(p));
            xml::lemma_content_end(full, rest, depth);
        },
    }
}

/// The attributes of a written profile read back.
proof fn lemma_profile_attrs(p: ProfileView, after: Seq<char>)
    ensures
        xml::tag(profile_attrs_text(p) + after, Seq::empty()) == xml::tag(
            after,
            profile_element(p).attrs,
        ),
{
    lemma_names();
    let uri = Seq::<(Seq<char>, Seq<char>)>::empty().push(("uri"@, p.uri));
    if p.encoding == Encoding::Base64 {
        let second = greeting::attr_text("encoding"@, "base64"@) + after;
        assert(profile_attrs_text(p) + after =~= greeting::attr_text("uri"@, p.uri) + second);
        greeting::lemma_attr_text("uri"@, p.uri, second, Seq::empty());
        greeting::lemma_attr_text("encoding"@, "base64"@, after, uri);
    } else {
        assert(profile_attrs_text(p) + after =~= greeting::attr_text("uri"@, p.uri) + after);
        greeting::lemma_attr_text("uri"@, p.uri, after, Seq::empty());
    }
}

/// The lines that offer profiles read back as one element each, and the end tag of the start
/// message ends them.
proof fn lemma_offer_lines(e: ElementView, profiles: Seq<ProfileView>)
    requires
        e.name == "start"@,
        forall|i: int| 0 <= i < profiles.len() ==> carries(#[trigger] profiles[i]),
    ensures
        match xml::content(e, seq!['\r', '\n'] + offer_lines(profiles) + "</start>\r\n"@, 0) {
            Ok((root, rest)) => {
                &&& root.name == e.name
                &&& root.attrs == e.attrs
                &&& root.children == e.children + profiles.map_values(
                    |p: ProfileView| profile_element(p),
                )
                &&& rest == seq!['\r', '\n']
            },
            Err(_) => false,
        },
    decreases profiles.len(),
{
    let end = "</start>\r\n"@;
    let all = seq!['\r', '\n'] + offer_lines(profiles) + end;
    let made = |p: ProfileView| profile_element(p);
    if profiles.len() == 0 {
        lemma_names();
        let blank = seq!['\r', '\n'];
        let next = ElementView { text: e.text + blank, ..e };
        assert(end == seq!['<', '/'] + e.name + seq!['>'] + blank) by {
            reveal_strlit("</start>\r\n");
            reveal_strlit("start");
            assert(end =~= seq!['<', '/'] + e.name + seq!['>'] + blank);
        }
        assert(all =~= blank + end);
        xml::lemma_content_plain(e, blank, end, 0);
        xml::lemma_content_end(next, blank, 0);
        assert(e.children + profiles.map_values(made) =~= e.children);
    } else {
        let p = profiles[0];
        let rest = profiles.drop_first();
        let blank = seq!['\r', '\n', ' ', ' ', ' '];
        let tail = seq!['\r', '\n'] + offer_lines(rest) + end;
        let child = p.text() + tail;
        assert(all == blank + child) by {
            reveal_strlit("   ");
            reveal_strlit("\r\n");
            assert(all =~= blank + child);
        }
        lemma_profile_text_shape(p);
        xml::lemma_content_plain(e, blank, child, 0);
        let next = ElementView { text: e.text + blank, ..e };
        lemma_profile_text(p, tail, 1);
        xml::lemma_content_child(next, child, profile_element(p), tail, 0);
        let with = ElementView { children: next.children.push(profile_element(p)), ..next };
        assert forall|i: int| 0 <= i < rest.len() implies carries(#[trigger] rest[i]) by {
            assert(rest[i] == profiles[i + 1]);
        }
        lemma_offer_lines(with, rest);
        assert(e.children + profiles.map_values(made) =~= with.children + rest.map_values(made));
    }
}

proof fn lemma_profiles_of(profiles: Seq<ProfileView>)
    requires
        forall|i: int| 0 <= i < profiles.len() ==> carries(#[trigger] profiles[i]),
    ensures
        profiles_of(profiles.map_values(|p: ProfileView| profile_element(p))) == Ok::<
            Seq<ProfileView>,
            Error,
        >(profiles),
    decreases profiles.len(),
{
    let made = |p: ProfileView| profile_element(p);
    let children = profiles.map_values(made);
    if profiles.len() > 0 {
        lemma_profiles_of(profiles.drop_last());
        assert(children.drop_last() =~= profiles.drop_last().map_values(made));
        assert(children.last() == profile_element(profiles.last()));
        lemma_profile_of_element(profiles.last());
        assert(profiles.drop_last().push(profiles.last()) =~= profiles);
    } else {
        assert(Seq::<ProfileView>::empty() =~= profiles);
    }
}

/// What follows the name in the document of a start message.
#[verifier::opaque]
spec fn start_tail(m: StartView) -> Seq<char> {
    greeting::attr_text("number"@, decimal::decimal_text(m.number as nat)) + (
    greeting::optional_attr_text("serverName"@, m.server_name) + (seq!['>'] + (seq!['\r', '\n']
        + offer_lines(m.profiles) + "</start>\r\n"@)))
}

/// The attributes of a start message.
spec fn start_attrs(m: StartView) -> Seq<(Seq<char>, Seq<char>)> {
    let first = Seq::empty().push(("number"@, decimal::decimal_text(m.number as nat)));
    match m.server_name {
        Some(name) => first.push(("serverName"@, name)),
        None => first,
    }
}

/// A start message is written as its name, its attributes and its offers.
proof fn lemma_start_shape(m: StartView)
    ensures
        ManagementView::Start(m).document() == seq!['<'] + "start"@ + start_tail(m),
{
    reveal(start_tail);
    reveal_strlit("<start number='");
    reveal_strlit("'");
    reveal_strlit(" serverName='");
    reveal_strlit(">\r\n");
    reveal_strlit("start");
    reveal_strlit("number");
    reveal_strlit("serverName");
    reveal_strlit(" ");
    reveal_strlit("='");
    lemma_decimal_text(m.number);
    let number = decimal::decimal_text(m.number as nat);
    let optional = match m.server_name {
        Some(name) => " serverName='"@ + xml::escaped(name) + "'"@,
        None => Seq::empty(),
    };
    assert(optional =~= greeting::optional_attr_text("serverName"@, m.server_name));
    assert("<start number='"@ + number + "'"@ =~= seq!['<'] + "start"@ + greeting::attr_text(
        "number"@,
        number,
    ));
    assert(ManagementView::Start(m).document() =~= seq!['<'] + "start"@ + start_tail(m));
}

/// The start tag of a start message reads back.
proof fn lemma_start_tag(m: StartView)
    ensures
        xml::tag(start_tail(m), Seq::empty()) == Ok::<xml::TagView, Error>(
            xml::TagView {
                attrs: start_attrs(m),
                closed: false,
                rest: seq!['\r', '\n'] + offer_lines(m.profiles) + "</start>\r\n"@,
            },
        ),
        start_tail(m).len() > 0,
        start_tail(m)[0] == ' ',
{
    reveal(start_tail);
    lemma_names();
    let number = decimal::decimal_text(m.number as nat);
    let first = Seq::<(Seq<char>, Seq<char>)>::empty().push(("number"@, number));
    let inner = seq!['\r', '\n'] + offer_lines(m.profiles) + "</start>\r\n"@;
    let tail = seq!['>'] + inner;
    let second = greeting::optional_attr_text("serverName"@, m.server_name) + tail;
    greeting::lemma_attr_text("number"@, number, second, Seq::empty());
    assert(start_tail(m)[0] == ' ');
    match m.server_name {
        Some(name) => {
            greeting::lemma_attr_text("serverName"@, name, tail, first);
        },
        None => {
            assert(second =~= tail);
        },
    }
    xml::lemma_tag_open(inner, start_attrs(m));
}

/// The attributes of a start message give its number and its server name back.
proof fn lemma_start_attrs(m: StartView)
    ensures
        xml::first_attr(start_attrs(m), "number"@) == Some(
            decimal::decimal_text(m.number as nat),
        ),
        xml::first_attr(start_attrs(m), "serverName"@) == m.server_name,
{
    lemma_names_differ();
    reveal_with_fuel(xml::first_attr, 3);
    if let Some(name) = m.server_name {
        assert(start_attrs(m).drop_first() =~= Seq::empty().push(("serverName"@, name)));
    } else {
        assert(start_attrs(m).drop_first() =~= Seq::empty());
    }
}

/// The document of a start message reads back as an element with its attributes and offers.
proof fn lemma_start_root(m: StartView) -> (root: ElementView)
    requires
        ManagementView::Start(m).renderable(),
    ensures
        xml::parsed(utf8::encode_utf8(seq!['<'] + "start"@ + start_tail(m))) == Ok::<
            ElementView,
            Error,
        >(root),
        root.name == "start"@,
        root.attrs == start_attrs(m),
        root.children == m.profiles.map_values(|p: ProfileView| profile_element(p)),
{
    lemma_names();
    xml::lemma_line_end_is_blank();
    lemma_start_tag(m);
    let leaf = ElementView::leaf("start"@, start_attrs(m));
    let inner = seq!['\r', '\n'] + offer_lines(m.profiles) + "</start>\r\n"@;
    let s = seq!['<'] + "start"@ + start_tail(m);
    assert(s.len() > 1 && s[1] == 's') by {
        reveal_strlit("start");
    }
    xml::lemma_element("start"@, start_tail(m), 0);
    lemma_offer_lines(leaf, m.profiles);
    let (root, rest) = xml::content(leaf, inner, 0)->Ok_0;
    xml::lemma_document(s, root, rest);
    assert(leaf.children + m.profiles.map_values(|p: ProfileView| profile_element(p))
        =~= m.profiles.map_values(|p: ProfileView| profile_element(p)));
    root
}

/// The document of a start message reads back.
proof fn lemma_start_document(m: StartView)
    requires
        ManagementView::Start(m).renderable(),
    ensures
        ManagementView::of_xml(utf8::encode_utf8(ManagementView::Start(m).document())) == Ok::<
            ManagementView,
            Error,
        >(ManagementView::Start(m)),
{
    lemma_start_shape(m);
    let root = lemma_start_root(m);
    lemma_decimal_text(m.number);
    lemma_start_attrs(m);
    assert(number_attr(root, "number") == Ok::<u32, Error>(m.number));
    greeting::lemma_all_named(root.children, "profile"@);
    lemma_profiles_of(m.profiles);
    assert(profiles_of(root.children_named("profile"@)) == Ok::<Seq<ProfileView>, Error>(
        m.profiles,
    ));
}

/// The end of a close or error message reads back: its language as an attribute, its text as
/// the text of the element.
proof fn lemma_explanation(
    tag_name: Seq<char>,
    attrs: Seq<(Seq<char>, Seq<char>)>,
    lang: Option<Seq<char>>,
    text: Option<Seq<char>>,
)
    requires
        xml::is_name(tag_name),
        explains(text),
    ensures
        ({
            let s1 = explanation_text(lang, text, tag_name);
            let all = match lang {
                Some(lang) => attrs.push(("xml:lang"@, lang)),
                None => attrs,
            };
            let root = ElementView {
                name: tag_name,
                attrs: all,
                children: Seq::empty(),
                text: match text {
                    Some(t) => t,
                    None => Seq::empty(),
                },
            };
            &&& s1.len() > 0
            &&& xml::ends_name(s1[0])
            &&& match xml::tag(s1, attrs) {
                Ok(t) => {
                    &&& t.attrs == all
                    &&& if t.closed {
                        t.rest == seq!['\r', '\n'] && root == ElementView::leaf(tag_name, all)
                    } else {
                        xml::content(ElementView::leaf(tag_name, all), t.rest, 0) == Ok::<
                            (ElementView, Seq<char>),
                            Error,
                        >((root, seq!['\r', '\n']))
                    }
                },
                Err(_) => false,
            }
            &&& element_text(root) == text
        }),
{
    lemma_names();
    let blank = seq!['\r', '\n'];
    let all = match lang {
        Some(lang) => attrs.push(("xml:lang"@, lang)),
        None => attrs,
    };
    let leaf = ElementView::leaf(tag_name, all);
    let end = seq!['<', '/'] + tag_name + seq!['>'] + blank;
    let tail = match text {
        None => seq![' ', '/', '>'] + blank,
        Some(t) => seq!['>'] + (xml::escaped(t) + end),
    };
    let s1 = explanation_text(lang, text, tag_name);
    assert(s1 == greeting::optional_attr_text("xml:lang"@, lang) + tail) by {
        reveal_strlit(" xml:lang='");
        reveal_strlit("'");
        reveal_strlit(" />\r\n");
        reveal_strlit(">");
        reveal_strlit("</");
        reveal_strlit(">\r\n");
        reveal_strlit(" ");
        reveal_strlit("='");
        reveal_strlit("xml:lang");
        let written = match lang {
            Some(lang) => " xml:lang='"@ + xml::escaped(lang) + "'"@,
            None => Seq::empty(),
        };
        assert(written =~= greeting::optional_attr_text("xml:lang"@, lang));
        assert(s1 =~= greeting::optional_attr_text("xml:lang"@, lang) + tail);
    }
    match lang {
        Some(lang) => {
            greeting::lemma_attr_text("xml:lang"@, lang, tail, attrs);
            assert(s1[0] == ' ');
        },
        None => {
            assert(s1 =~= tail);
        },
    }
    match text {
        None => {
            xml::lemma_tag_closed(blank, all);
            let drop = |c: char| text::is_white(c);
            assert(text::trimmed(Seq::<char>::empty(), drop).len() == 0);
        },
        Some(t) => {
            let inner = xml::escaped(t) + end;
            xml::lemma_tag_open(inner, all);
            xml::law_escape_is_undone(t);
            xml::law_escaped_text_holds_no_markup(t);
            assert(xml::escaped(t).len() > 0);
            xml::lemma_content_text(leaf, xml::escaped(t), t, end, 0);
            let root = ElementView { text: leaf.text + t, ..leaf };
            assert(leaf.text + t =~= t);
            xml::lemma_content_end(root, blank, 0);
        },
    }
}

/// The document of a close message reads back.
proof fn lemma_close_document(m: CloseView)
    requires
        explains(m.text),
    ensures
        ManagementView::of_xml(utf8::encode_utf8(ManagementView::Close(m).document())) == Ok::<
            ManagementView,
            Error,
        >(ManagementView::Close(m)),
{
    lemma_names();
    lemma_names_differ();
    lemma_decimal_text(m.number);
    lemma_decimal_text(m.code);
    xml::lemma_line_end_is_blank();
    let number = decimal::decimal_text(m.number as nat);
    let code = decimal::decimal_text(m.code as nat);
    let first = Seq::<(Seq<char>, Seq<char>)>::empty().push(("number"@, number));
    let attrs = first.push(("code"@, code));
    let all = match m.lang {
        Some(lang) => attrs.push(("xml:lang"@, lang)),
        None => attrs,
    };
    let tail = explanation_text(m.lang, m.text, "close"@);
    let second = greeting::attr_text("code"@, code) + tail;
    let s1 = greeting::attr_text("number"@, number) + second;
    let s = seq!['<'] + "close"@ + s1;
    assert(ManagementView::Close(m).document() == s) by {
        reveal_strlit("<close number='");
        reveal_strlit("' code='");
        reveal_strlit("'");
        reveal_strlit("close");
        reveal_strlit("number");
        reveal_strlit("code");
        reveal_strlit(" ");
        reveal_strlit("='");
        assert(ManagementView::Close(m).document() =~= s);
    }
    assert(s[1] == 'c') by {
        reveal_strlit("close");
    }
    greeting::lemma_attr_text("number"@, number, second, Seq::empty());
    greeting::lemma_attr_text("code"@, code, tail, first);
    assert(s1[0] == ' ');
    xml::lemma_element("close"@, s1, 0);
    lemma_explanation("close"@, attrs, m.lang, m.text);
    let root = ElementView {
        name: "close"@,
        attrs: all,
        children: Seq::empty(),
        text: match m.text {
            Some(t) => t,
            None => Seq::empty(),
        },
    };
    xml::lemma_document(s, root, seq!['\r', '\n']);
    reveal_with_fuel(xml::first_attr, 4);
    assert(all.drop_first().drop_first() =~= match m.lang {
        Some(lang) => Seq::empty().push(("xml:lang"@, lang)),
        None => Seq::empty(),
    });
}

/// The document of an error message reads back.
proof fn lemma_error_document(m: ErrorReplyView)
    requires
        explains(m.text),
    ensures
        ManagementView::of_xml(utf8::encode_utf8(ManagementView::Error(m).document())) == Ok::<
            ManagementView,
            Error,
        >(ManagementView::Error(m)),
{
    lemma_names();
    lemma_names_differ();
    lemma_decimal_text(m.code);
    xml::lemma_line_end_is_blank();
    let code = decimal::decimal_text(m.code as nat);
    let attrs = Seq::<(Seq<char>, Seq<char>)>::empty().push(("code"@, code));
    let all = match m.lang {
        Some(lang) => attrs.push(("xml:lang"@, lang)),
        None => attrs,
    };
    let tail = explanation_text(m.lang, m.text, "error"@);
    let s1 = greeting::attr_text("code"@, code) + tail;
    let s = seq!['<'] + "error"@ + s1;
    assert(ManagementView::Error(m).document() == s) by {
        reveal_strlit("<error code='");
        reveal_strlit("'");
        reveal_strlit("error");
        reveal_strlit("code");
        reveal_strlit(" ");
        reveal_strlit("='");
        assert(ManagementView::Error(m).document() =~= s);
    }
    assert(s[1] == 'e') by {
        reveal_strlit("error");
    }
    greeting::lemma_attr_text("code"@, code, tail, Seq::empty());
    assert(s1[0] == ' ');
    xml::lemma_element("error"@, s1, 0);
    lemma_explanation("error"@, attrs, m.lang, m.text);
    let root = ElementView {
        name: "error"@,
        attrs: all,
        children: Seq::empty(),
        text: match m.text {
            Some(t) => t,
            None => Seq::empty(),
        },
    };
    xml::lemma_document(s, root, seq!['\r', '\n']);
    reveal_with_fuel(xml::first_attr, 3);
    assert(all.drop_first() =~= match m.lang {
        Some(lang) => Seq::empty().push(("xml:lang"@, lang)),
        None => Seq::empty(),
    });
}

/// The documents of a profile and of an `<ok />` read back.
proof fn lemma_short_documents(p: ProfileView)
    requires
        carries(p),
    ensures
        ManagementView::of_xml(utf8::encode_utf8(ManagementView::Profile(p).document())) == Ok::<
            ManagementView,
            Error,
        >(ManagementView::Profile(p)),
        ManagementView::of_xml(utf8::encode_utf8(ManagementView::Okay.document())) == Ok::<
            ManagementView,
            Error,
        >(ManagementView::Okay),
{
    lemma_names();
    lemma_names_differ();
    xml::lemma_line_end_is_blank();
    let blank = seq!['\r', '\n'];
    assert(ManagementView::Profile(p).document() == p.text() + blank) by {
        reveal_strlit("\r\n");
        assert("\r\n"@ =~= blank);
    }
    lemma_profile_text_shape(p);
    lemma_profile_text(p, blank, 0);
    xml::lemma_document(p.text() + blank, profile_element(p), blank);
    lemma_profile_of_element(p);

    let none = Seq::<char>::empty();
    let s1 = seq![' ', '/', '>'] + none;
    let s = seq!['<'] + "ok"@ + s1;
    assert(ManagementView::Okay.document() == s) by {
        reveal_strlit("<ok />");
        reveal_strlit("ok");
        assert(ManagementView::Okay.document() =~= s);
    }
    assert(s[1] == 'o') by {
        reveal_strlit("ok");
    }
    xml::lemma_element("ok"@, s1, 0);
    xml::lemma_tag_closed(none, Seq::empty());
    xml::lemma_document(s, ElementView::leaf("ok"@, Seq::empty()), none);
}

/// A channel-management message that is rendered and parsed again is the same message, provided
/// that its parts can be carried: profile content that is there is not empty, and an explanation
/// that is there is neither empty nor edged with white space.
pub proof fn law_messages_round_trip(m: ManagementView)
    requires
        m.renderable(),
    ensures
        ManagementView::of_payload(m.payload()) == Ok::<ManagementView, Error>(m),
{
    mime::law_documents_survive_their_headers(m.document());
    match m {
        ManagementView::Start(start) => lemma_start_document(start),
        ManagementView::Close(close) => lemma_close_document(close),
        ManagementView::Profile(profile) => lemma_short_documents(profile),
        ManagementView::Okay => lemma_short_documents(
            ProfileView { uri: Seq::empty(), encoding: Encoding::Literal, content: None },
        ),
        ManagementView::Error(error) => lemma_error_document(error),
    }
}

proof fn lemma_parsed_profiles(children: Seq<ElementView>)
    ensures
        profiles_of(children) matches Ok(profiles) ==> forall|i: int|
            0 <= i < profiles.len() ==> ((#[trigger] profiles[i]).content matches Some(c)
                ==> c.len() > 0),
    decreases children.len(),
{
    if children.len() > 0 {
        lemma_parsed_profiles(children.drop_last());
    }
}

/// A message that was parsed can be rendered and parsed again without changing, whatever
/// document it came from.
pub proof fn law_parsed_messages_survive_rendering(payload: Seq<u8>)
    ensures
        ManagementView::of_payload(payload) matches Ok(m) ==> ManagementView::of_payload(
            m.payload(),
        ) == Ok::<ManagementView, Error>(m),
{
    if let Ok(m) = ManagementView::of_payload(payload) {
        let root = xml::parsed(mime::parts(payload).1)->Ok_0;
        lemma_parsed_profiles(root.children_named("profile"@));
        let drop = |c: char| text::is_white(c);
        let t = text::trimmed(root.text, drop);
        text::lemma_trimmed_ends(root.text, drop);
        text::lemma_trimmed_id(t, drop);
        assert(m.renderable());
        law_messages_round_trip(m);
    }
}

} // verus!
