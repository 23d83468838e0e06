//! The greeting exchange on channel 0.
//!
//! Both peers announce themselves immediately after the transport is established, each
//! sending an `RPY` on channel 0 with message number 0 and sequence number 0, carrying
//! `Content-Type: application/beep+xml` and a `<greeting>` element listing the profiles it
//! is willing to serve.
//!
//! ```text
//! Content-Type: application/beep+xml
//!
//! <greeting>
//!    <profile uri='http://iana.org/beep/transient/vortex-regression' />
//! </greeting>
//! ```

use crate::error::Error;
use crate::frame::{self, DataFrame, DataView, FrameKind};
use crate::mime;
use crate::octets;
use crate::xml::{self, ElementView};
use bytes::Bytes;
use vstd::prelude::*;
use vstd::utf8;

verus! {

/// The channel every greeting is exchanged on.
pub const GREETING_CHANNEL: u32 = 0;

/// What a greeting announces.
#[verifier::ext_equal]
pub struct GreetingView {
    pub profiles: Seq<Seq<char>>,
    pub features: Option<Seq<char>>,
    pub localize: Option<Seq<char>>,
}

/// An attribute as it is written in a start tag.
pub open spec fn attr_text(name: Seq<char>, value: Seq<char>) -> Seq<char> {
    " "@ + name + "='"@ + xml::escaped(value) + "'"@
}

/// An attribute that may be absent.
pub open spec fn optional_attr_text(name: Seq<char>, value: Option<Seq<char>>) -> Seq<char> {
    match value {
        Some(value) => attr_text(name, value),
        None => Seq::empty(),
    }
}

/// The lines of a greeting that list its profiles.
pub open spec fn profile_lines(profiles: Seq<Seq<char>>) -> Seq<char>
    decreases profiles.len(),
{
    if profiles.len() == 0 {
        Seq::empty()
    } else {
        "   <profile uri='"@ + xml::escaped(profiles[0]) + "' />\r\n"@ + profile_lines(
            profiles.drop_first(),
        )
    }
}

/// The profile URIs that a list of `<profile>` elements gives.
pub open spec fn uris(children: Seq<ElementView>) -> Seq<Seq<char>>
    decreases children.len(),
{
    if children.len() == 0 {
        Seq::empty()
    } else {
        match children.last().attr("uri"@) {
            Some(uri) => uris(children.drop_last()).push(uri),
            None => uris(children.drop_last()),
        }
    }
}

impl GreetingView {
    /// A greeting that announces nothing.
    pub open spec fn empty() -> GreetingView {
        GreetingView { profiles: Seq::empty(), features: None, localize: None }
    }

    /// The `<greeting>` document.
    pub open spec fn document(self) -> Seq<char> {
        "<greeting"@ + optional_attr_text("features"@, self.features) + optional_attr_text(
            "localize"@,
            self.localize,
        ) + (if self.profiles.len() == 0 {
            " />\r\n"@
        } else {
            ">\r\n"@ + profile_lines(self.profiles) + "</greeting>\r\n"@
        })
    }

    /// The octets of the payload that carries the greeting.
    pub open spec fn payload(self) -> Seq<u8> {
        utf8::encode_utf8(mime::beep_xml_text(self.document()))
    }

    /// The greeting that a document gives.
    pub open spec fn of_element(root: ElementView) -> Result<GreetingView, Error> {
        if root.name != "greeting"@ {
            Err(Error::UnexpectedElement)
        } else {
            Ok(
                GreetingView {
                    profiles: uris(root.children_named("profile"@)),
                    features: root.attr("features"@),
                    localize: root.attr("localize"@),
                },
            )
        }
    }

    /// The greeting that a payload carries.
    pub open spec fn of_payload(payload: Seq<u8>) -> Result<GreetingView, Error> {
        if !mime::is_beep_xml(payload) {
            Err(Error::NotBeepXml)
        } else {
            match xml::parsed(mime::parts(payload).1) {
                Err(e) => Err(e),
                Ok(root) => GreetingView::of_element(root),
            }
        }
    }

    /// The greeting that a frame carries, which has to be a complete `RPY` on channel 0 with
    /// message number 0 and sequence number 0.
    pub open spec fn of_frame(f: DataView) -> Result<GreetingView, Error> {
        if f.kind != FrameKind::Rpy {
            Err(Error::NotAGreeting { reason: "expected an RPY frame" })
        } else if f.channel != GREETING_CHANNEL {
            Err(Error::NotAGreeting { reason: "expected channel 0" })
        } else if f.msgno != 0 {
            Err(Error::NotAGreeting { reason: "expected message number 0" })
        } else if f.seqno != 0 {
            Err(Error::NotAGreeting { reason: "expected sequence number 0" })
        } else if f.more {
            Err(Error::NotAGreeting { reason: "expected a complete frame" })
        } else {
            GreetingView::of_payload(f.payload)
        }
    }
}

/// The profiles a peer advertises, plus the optional negotiation attributes.
#[derive(Debug, PartialEq, Eq)]
pub struct Greeting {
    profiles: Vec<String>,
    features: Option<String>,
    localize: Option<String>,
}

/// The view of a string that may be absent.
pub open spec fn text_view(s: Option<String>) -> Option<Seq<char>> {
    match s {
        Some(s) => Some(s@),
        None => None,
    }
}

/// The view of a borrowed string that may be absent.
pub open spec fn str_view(s: Option<&str>) -> Option<Seq<char>> {
    match s {
        Some(s) => Some(s@),
        None => None,
    }
}

/// The view of a list of strings.
pub open spec fn texts(s: Seq<String>) -> Seq<Seq<char>> {
    s.map_values(|s: String| s@)
}

impl View for Greeting {
    type V = GreetingView;

    closed spec fn view(&self) -> GreetingView {
        GreetingView {
            profiles: texts(self.profiles@),
            features: text_view(self.features),
            localize: text_view(self.localize),
        }
    }
}

/// The view of a greeting, or the error in its place.
pub open spec fn greeting_result(r: Result<Greeting, Error>) -> Result<GreetingView, Error> {
    match r {
        Ok(g) => Ok(g@),
        Err(e) => Err(e),
    }
}

/// A copy of a string that may be absent.
pub(crate) fn copy_text(s: &Option<String>) -> (r: Option<String>)
    ensures
        text_view(r) == text_view(*s),
{
    match s {
        Some(s) => Some(s.as_str().to_owned()),
        None => None,
    }
}

/// A string of its own, where there is one.
pub(crate) fn own_text(s: Option<&str>) -> (r: Option<String>)
    ensures
        text_view(r) == str_view(s),
{
    match s {
        Some(s) => Some(s.to_owned()),
        None => None,
    }
}

/// A string that may be absent, borrowed.
pub(crate) fn borrow_text(s: &Option<String>) -> (r: Option<&str>)
    ensures
        str_view(r) == text_view(*s),
{
    match s {
        Some(s) => Some(s.as_str()),
        None => None,
    }
}

impl Clone for Greeting {
    fn clone(&self) -> (r: Greeting)
        ensures
            r@ == self@,
    {
        let mut profiles: Vec<String> = Vec::new();
        let mut i: usize = 0;
        while i < self.profiles.len()
            invariant
                i <= self.profiles@.len(),
                texts(profiles@) == texts(self.profiles@).take(i as int),
            decreases self.profiles@.len() - i,
        {
            let ghost before = texts(profiles@);
            profiles.push(self.profiles[i].as_str().to_owned());
            assert(texts(profiles@) =~= before.push(texts(self.profiles@)[i as int]));
            i += 1;
            assert(texts(profiles@) =~= texts(self.profiles@).take(i as int));
        }
        assert(texts(profiles@) =~= texts(self.profiles@));
        Greeting {
            profiles,
            features: copy_text(&self.features),
            localize: copy_text(&self.localize),
        }
    }
}

impl Default for Greeting {
    fn default() -> (r: Greeting)
        ensures
            r@ == GreetingView::empty(),
    {
        Greeting::new()
    }
}

impl Greeting {
    /// An empty greeting, advertising no profiles.
    #[must_use]
    pub fn new() -> (r: Greeting)
        ensures
            r@ == GreetingView::empty(),
    {
        let r = Greeting { profiles: Vec::new(), features: None, localize: None };
        assert(r@ =~= GreetingView::empty());
        r
    }

    /// Advertises one more profile URI.
    #[must_use]
    pub fn with_profile(self, uri: &str) -> (r: Greeting)
        ensures
            r@ == (GreetingView { profiles: self@.profiles.push(uri@), ..self@ }),
    {
        let mut profiles = self.profiles;
        profiles.push(uri.to_owned());
        let r = Greeting { profiles, features: self.features, localize: self.localize };
        assert(r@.profiles =~= self@.profiles.push(uri@));
        r
    }

    /// Sets the `features` attribute, listing optional feature tokens.
    #[must_use]
    pub fn with_features(self, features: &str) -> (r: Greeting)
        ensures
            r@ == (GreetingView { features: Some(features@), ..self@ }),
    {
        Greeting {
            profiles: self.profiles,
            features: Some(features.to_owned()),
            localize: self.localize,
        }
    }

    /// Sets the `localize` attribute, listing preferred language tags.
    #[must_use]
    pub fn with_localize(self, localize: &str) -> (r: Greeting)
        ensures
            r@ == (GreetingView { localize: Some(localize@), ..self@ }),
    {
        Greeting {
            profiles: self.profiles,
            features: self.features,
            localize: Some(localize.to_owned()),
        }
    }

    /// The advertised profile URIs, in the order they appeared.
    #[must_use]
    pub fn profiles(&self) -> (r: &[String])
        ensures
            texts(r@) == self@.profiles,
    {
        self.profiles.as_slice()
    }

    /// Whether a given profile URI is advertised.
    #[must_use]
    pub fn advertises(&self, uri: &str) -> (r: bool)
        ensures
            r == self@.profiles.contains(uri@),
    {
        let mut i: usize = 0;
        while i < self.profiles.len()
            invariant
                i <= self.profiles@.len(),
                forall|j: int| 0 <= j < i ==> self@.profiles[j] != uri@,
            decreases self.profiles@.len() - i,
        {
            if xml::same_text(self.profiles[i].as_str(), uri) {
                assert(self@.profiles[i as int] == uri@);
                return true;
            }
            i += 1;
        }
        false
    }

    /// The `features` attribute, if any.
    #[must_use]
    pub fn features(&self) -> (r: Option<&str>)
        ensures
            str_view(r) == self@.features,
    {
        borrow_text(&self.features)
    }

    /// The `localize` attribute, if any.
    #[must_use]
    pub fn localize(&self) -> (r: Option<&str>)
        ensures
            str_view(r) == self@.localize,
    {
        borrow_text(&self.localize)
    }

    /// Renders the greeting as a BEEP payload, MIME headers included.
    #[must_use]
    pub fn to_payload(&self) -> (r: Bytes)
        ensures
            octets::octets(r) == self@.payload(),
    {
        let mut out = String::new();
        mime::push_beep_xml_headers(&mut out);
        let ghost headers = out@;
        out.push_str("<greeting");
        if let Some(features) = &self.features {
            push_attr(&mut out, "features", features.as_str());
        }
        if let Some(localize) = &self.localize {
            push_attr(&mut out, "localize", localize.as_str());
        }
        let ghost start = "<greeting"@ + optional_attr_text("features"@, self@.features)
            + optional_attr_text("localize"@, self@.localize);
        assert(out@ =~= headers + start);
        if self.profiles.len() == 0 {
            out.push_str(" />\r\n");
        } else {
            out.push_str(">\r\n");
            let ghost opened = out@;
            let ghost all = self@.profiles;
            let mut i: usize = 0;
            assert(all.skip(0) =~= all);
            while i < self.profiles.len()
                invariant
                    i <= self.profiles@.len(),
                    all == texts(self.profiles@),
                    out@ + profile_lines(all.skip(i as int)) == opened + profile_lines(all),
                decreases self.profiles@.len() - i,
            {
                let ghost before = out@;
                out.push_str("   <profile uri='");
                xml::escape(&mut out, self.profiles[i].as_str());
                out.push_str("' />\r\n");
                proof {
                    let uri = all.skip(i as int)[0];
                    let line = "   <profile uri='"@ + xml::escaped(uri) + "' />\r\n"@;
                    let rest = profile_lines(all.skip(i + 1));
                    assert(all.skip(i as int).drop_first() =~= all.skip(i + 1));
                    assert(out@ =~= before + line);
                    assert(out@ + rest =~= before + (line + rest));
                }
                i += 1;
            }
            assert(out@ =~= out@ + profile_lines(all.skip(i as int)));
            out.push_str("</greeting>\r\n");
        }
        proof {
            assert(out@ =~= headers + self@.document());
            assert(headers + self@.document() =~= mime::beep_xml_text(self@.document()));
        }
        octets::bytes_from_string(out)
    }

    /// Builds the frame that carries this greeting, at the given sequence number.
    ///
    /// The sequence number is zero for the greeting itself; the parameter exists because a
    /// session that has already sent octets on channel 0 must continue from where it was.
    ///
    /// # Errors
    ///
    /// Returns [`Error::FrameTooLarge`] if the rendered greeting exceeds the maximum frame
    /// size, which requires an implausible number of advertised profiles.
    pub fn to_frame(&self, seqno: u32) -> (r: Result<DataFrame, Error>)
        ensures
            frame::data_result(r) == (DataView {
                kind: FrameKind::Rpy,
                channel: GREETING_CHANNEL,
                msgno: 0,
                more: false,
                seqno,
                ansno: None,
                payload: self@.payload(),
            }).checked(),
    {
        DataFrame::new(FrameKind::Rpy, GREETING_CHANNEL, 0, seqno, self.to_payload())
    }

    /// Parses a greeting from a BEEP payload, MIME headers included.
    ///
    /// # Errors
    ///
    /// Returns [`Error::NotBeepXml`] when the payload does not declare
    /// `Content-Type: application/beep+xml`, and [`Error::UnexpectedElement`] when the root
    /// element is not `<greeting>`.
    pub fn from_payload(payload: &[u8]) -> (r: Result<Greeting, Error>)
        ensures
            greeting_result(r) == GreetingView::of_payload(payload@),
    {
        let body = match mime::beep_xml_body(payload) {
            Some(body) => body,
            None => return Err(Error::NotBeepXml),
        };
        let root = xml::parse(body)?;
        if !xml::same_text(root.name, "greeting") {
            return Err(Error::UnexpectedElement);
        }
        let children = root.children_named("profile");
        let ghost all = root@.children_named("profile"@);
        let mut profiles: Vec<String> = Vec::new();
        let mut i: usize = 0;
        assert(all.take(0) =~= Seq::empty());
        assert(texts(profiles@) =~= uris(all.take(0)));
        while i < children.len()
            invariant
                i <= children@.len(),
                all.len() == children@.len(),
                forall|j: int| 0 <= j < children@.len() ==> children@[j]@ == #[trigger] all[j],
                texts(profiles@) == uris(all.take(i as int)),
            decreases children@.len() - i,
        {
            let ghost before = texts(profiles@);
            assert(all.take(i + 1).drop_last() =~= all.take(i as int));
            assert(children@[i as int]@ == all[i as int]);
            if let Some(uri) = children[i].attr("uri") {
                profiles.push(uri.to_owned());
                assert(texts(profiles@) =~= before.push(uri@));
            }
            i += 1;
        }
        assert(all.take(i as int) =~= all);
        Ok(
            Greeting {
                profiles,
                features: own_text(root.attr("features")),
                localize: own_text(root.attr("localize")),
            },
        )
    }

    /// Parses a greeting from the frame that carried it, validating the frame shape.
    ///
    /// # Errors
    ///
    /// Returns [`Error::NotAGreeting`] unless the frame is a complete `RPY` on channel 0
    /// with message number 0 and sequence number 0. Otherwise as
    /// [`Greeting::from_payload`].
    pub fn from_frame(frame: &DataFrame) -> (r: Result<Greeting, Error>)
        ensures
            greeting_result(r) == GreetingView::of_frame(frame@),
    {
        if frame.kind() != FrameKind::Rpy {
            return Err(Error::NotAGreeting { reason: "expected an RPY frame" });
        }
        if frame.channel() != GREETING_CHANNEL {
            return Err(Error::NotAGreeting { reason: "expected channel 0" });
        }
        if frame.msgno() != 0 {
            return Err(Error::NotAGreeting { reason: "expected message number 0" });
        }
        if frame.seqno() != 0 {
            return Err(Error::NotAGreeting { reason: "expected sequence number 0" });
        }
        if frame.more() {
            return Err(Error::NotAGreeting { reason: "expected a complete frame" });
        }
        Greeting::from_payload(frame.payload())
    }
}

fn push_attr(out: &mut String, name: &str, value: &str)
    ensures
        final(out)@ == old(out)@ + attr_text(name@, value@),
{
    let ghost before = out@;
    out.push_str(" ");
    out.push_str(name);
    out.push_str("='");
    xml::escape(out, value);
    out.push_str("'");
    assert(out@ =~= before + attr_text(name@, value@));
}

// ---- laws ------------------------------------------------------------------------

/// The attributes of a rendered greeting.
spec fn attrs_of(g: GreetingView) -> Seq<(Seq<char>, Seq<char>)> {
    let first = match g.features {
        Some(v) => Seq::empty().push(("features"@, v)),
        None => Seq::empty(),
    };
    match g.localize {
        Some(v) => first.push(("localize"@, v)),
        None => first,
    }
}

/// The element that announces one profile.
spec fn profile_leaf(uri: Seq<char>) -> ElementView {
    ElementView::leaf("profile"@, seq![("uri"@, uri)])
}

/// A rendered attribute is read back, and the tag goes on behind it.
pub proof fn lemma_attr_text(
    name: Seq<char>,
    value: Seq<char>,
    rest: Seq<char>,
    attrs: Seq<(Seq<char>, Seq<char>)>,
)
    requires
        xml::is_name(name),
    ensures
        xml::tag(attr_text(name, value) + rest, attrs) == xml::tag(
            rest,
            attrs.push((name, value)),
        ),
        attr_text(name, value).len() > 0,
        attr_text(name, value)[0] == ' ',
{
    reveal_strlit(" ");
    reveal_strlit("='");
    reveal_strlit("'");
    let s = seq![' '] + name + seq!['=', '\''] + xml::escaped(value) + seq!['\''] + rest;
    assert(attr_text(name, value) + rest =~= s);
    assert(attr_text(name, value)[0] == ' ');
    xml::lemma_tag_attr(name, value, rest, attrs);
}

/// The names a greeting is written with are names.
proof fn lemma_names()
    ensures
        xml::is_name("greeting"@),
        xml::is_name("features"@),
        xml::is_name("localize"@),
        xml::is_name("profile"@),
        xml::is_name("uri"@),
        "features"@ != "localize"@,
{
    reveal_strlit("greeting");
    reveal_strlit("features");
    reveal_strlit("localize");
    reveal_strlit("profile");
    reveal_strlit("uri");
    assert("features"@[0] == 'f');
    assert("localize"@[0] == 'l');
}

/// One rendered profile reads back as an element of its own.
proof fn lemma_profile_element(uri: Seq<char>, rest: Seq<char>)
    ensures
        xml::element(
            seq!['<'] + "profile"@ + attr_text("uri"@, uri) + seq![' ', '/', '>'] + rest,
            1,
        ) == Ok::<(ElementView, Seq<char>), Error>((profile_leaf(uri), rest)),
{
    lemma_names();
    let closing = seq![' ', '/', '>'] + rest;
    let s1 = attr_text("uri"@, uri) + closing;
    lemma_attr_text("uri"@, uri, closing, Seq::empty());
    xml::lemma_tag_closed(rest, Seq::empty().push(("uri"@, uri)));
    xml::lemma_element("profile"@, s1, 1);
    assert(seq!['<'] + "profile"@ + attr_text("uri"@, uri) + seq![' ', '/', '>'] + rest =~= seq![
        '<',
    ] + "profile"@ + s1);
    assert(Seq::empty().push(("uri"@, uri)) =~= seq![("uri"@, uri)]);
}

/// The lines that list profiles read back as one element each, and the greeting's end tag ends
/// them.
proof fn lemma_profile_lines(e: ElementView, profiles: Seq<Seq<char>>)
    requires
        e.name == "greeting"@,
    ensures
        match xml::content(
            e,
            seq!['\r', '\n'] + profile_lines(profiles) + "</greeting>\r\n"@,
            0,
        ) {
            Ok((root, rest)) => {
                &&& root.name == e.name
                &&& root.attrs == e.attrs
                &&& root.children == e.children + profiles.map_values(
                    |uri: Seq<char>| profile_leaf(uri),
                )
                &&& rest == seq!['\r', '\n']
            },
            Err(_) => false,
        },
    decreases profiles.len(),
{
    reveal_strlit("</greeting>\r\n");
    reveal_strlit("greeting");
    lemma_names();
    let end = "</greeting>\r\n"@;
    let all = seq!['\r', '\n'] + profile_lines(profiles) + end;
    let leaf = |uri: Seq<char>| profile_leaf(uri);
    if profiles.len() == 0 {
        let blank = seq!['\r', '\n'];
        let next = ElementView { text: e.text + blank, ..e };
        assert(all =~= blank + end);
        xml::lemma_content_plain(e, blank, end, 0);
        assert(end =~= seq!['<', '/'] + e.name + seq!['>'] + blank);
        xml::lemma_content_end(next, blank, 0);
        assert(e.children + profiles.map_values(leaf) =~= e.children);
    } else {
        reveal_strlit("   <profile uri='");
        reveal_strlit("' />\r\n");
        reveal_strlit("profile");
        reveal_strlit("uri");
        reveal_strlit(" ");
        reveal_strlit("='");
        reveal_strlit("'");
        let uri = profiles[0];
        let rest = profiles.drop_first();
        let blank = seq!['\r', '\n', ' ', ' ', ' '];
        let tail = seq!['\r', '\n'] + profile_lines(rest) + end;
        let child = seq!['<'] + "profile"@ + attr_text("uri"@, uri) + seq![' ', '/', '>'] + tail;
        assert(all =~= blank + child);
        xml::lemma_content_plain(e, blank, child, 0);
        let next = ElementView { text: e.text + blank, ..e };
        lemma_profile_element(uri, tail);
        assert(child[1] == 'p');
        xml::lemma_content_child(next, child, profile_leaf(uri), tail, 0);
        let with = ElementView { children: next.children.push(profile_leaf(uri)), ..next };
        lemma_profile_lines(with, rest);
        assert(e.children + profiles.map_values(leaf) =~= with.children + rest.map_values(leaf));
    }
}

/// Where every child has the name that is asked for, all of them are given.
pub proof fn lemma_all_named(children: Seq<ElementView>, name: Seq<char>)
    requires
        forall|i: int| 0 <= i < children.len() ==> (#[trigger] children[i]).name == name,
    ensures
        children.filter(|child: ElementView| child.name == name) == children,
    decreases children.len(),
{
    reveal(Seq::filter);
    if children.len() > 0 {
        lemma_all_named(children.drop_last(), name);
        assert(children.drop_last().push(children.last()) =~= children);
    }
}

proof fn lemma_uris(profiles: Seq<Seq<char>>)
    ensures
        uris(profiles.map_values(|uri: Seq<char>| profile_leaf(uri))) == profiles,
    decreases profiles.len(),
{
    let leaf = |uri: Seq<char>| profile_leaf(uri);
    let children = profiles.map_values(leaf);
    if profiles.len() > 0 {
        lemma_uris(profiles.drop_last());
        assert(children.drop_last() =~= profiles.drop_last().map_values(leaf));
        assert(children.last() == profile_leaf(profiles.last()));
        assert(xml::first_attr(seq![("uri"@, profiles.last())], "uri"@) == Some(profiles.last()));
        assert(profiles.drop_last().push(profiles.last()) =~= profiles);
    } else {
        assert(uris(children) =~= profiles);
    }
}

/// The attributes of a rendered greeting give its features and its languages back.
proof fn lemma_attrs_of(g: GreetingView)
    ensures
        xml::first_attr(attrs_of(g), "features"@) == g.features,
        xml::first_attr(attrs_of(g), "localize"@) == g.localize,
{
    lemma_names();
    reveal_with_fuel(xml::first_attr, 3);
    let attrs = attrs_of(g);
    if g.features is Some && g.localize is Some {
        assert(attrs.drop_first() =~= Seq::empty().push(("localize"@, g.localize->0)));
    }
}

/// The start tag of a rendered greeting reads back.
proof fn lemma_start_tag(g: GreetingView, rest: Seq<char>)
    ensures
        xml::tag(
            optional_attr_text("features"@, g.features) + optional_attr_text(
                "localize"@,
                g.localize,
            ) + rest,
            Seq::empty(),
        ) == xml::tag(rest, attrs_of(g)),
{
    lemma_names();
    let second = optional_attr_text("localize"@, g.localize) + rest;
    let first = match g.features {
        Some(v) => Seq::<(Seq<char>, Seq<char>)>::empty().push(("features"@, v)),
        None => Seq::empty(),
    };
    assert(optional_attr_text("features"@, g.features) + optional_attr_text(
        "localize"@,
        g.localize,
    ) + rest =~= optional_attr_text("features"@, g.features) + second);
    if let Some(v) = g.features {
        lemma_attr_text("features"@, v, second, Seq::empty());
    } else {
        assert(optional_attr_text("features"@, g.features) + second =~= second);
    }
    if let Some(v) = g.localize {
        lemma_attr_text("localize"@, v, rest, first);
    } else {
        assert(second =~= rest);
    }
}

/// The document of a greeting reads back as an element that says what the greeting says.
proof fn lemma_document(g: GreetingView)
    ensures
        match xml::parsed(utf8::encode_utf8(g.document())) {
            Ok(root) => GreetingView::of_element(root) == Ok::<GreetingView, Error>(g),
            Err(_) => false,
        },
{
    reveal_strlit("<greeting");
    reveal_strlit("greeting");
    lemma_names();
    lemma_attrs_of(g);
    xml::lemma_line_end_is_blank();
    let blank = seq!['\r', '\n'];
    let attrs = optional_attr_text("features"@, g.features) + optional_attr_text(
        "localize"@,
        g.localize,
    );
    let leaf = ElementView::leaf("greeting"@, attrs_of(g));
    let tail = if g.profiles.len() == 0 {
        " />\r\n"@
    } else {
        ">\r\n"@ + profile_lines(g.profiles) + "</greeting>\r\n"@
    };
    let s1 = attrs + tail;
    let s = seq!['<'] + "greeting"@ + s1;
    assert(g.document() =~= s);
    assert(s[1] == 'g');
    lemma_start_tag(g, tail);
    assert(s1.len() > 0 && xml::ends_name(s1[0])) by {
        reveal_strlit(" />\r\n");
        reveal_strlit(">\r\n");
        reveal_strlit(" ");
        if attrs.len() > 0 {
            assert(s1[0] == ' ');
        } else {
            assert(s1 =~= tail);
        }
    }
    xml::lemma_element("greeting"@, s1, 0);
    if g.profiles.len() == 0 {
        reveal_strlit(" />\r\n");
        assert(tail =~= seq![' ', '/', '>'] + blank);
        xml::lemma_tag_closed(blank, attrs_of(g));
        xml::lemma_document(s, leaf, blank);
        lemma_all_named(leaf.children, "profile"@);
        assert(uris(leaf.children) =~= g.profiles);
    } else {
        reveal_strlit(">\r\n");
        let inner = blank + profile_lines(g.profiles) + "</greeting>\r\n"@;
        assert(tail =~= seq!['>'] + inner);
        xml::lemma_tag_open(inner, attrs_of(g));
        lemma_profile_lines(leaf, g.profiles);
        let (root, rest) = xml::content(leaf, inner, 0)->Ok_0;
        xml::lemma_document(s, root, rest);
        let children = g.profiles.map_values(|uri: Seq<char>| profile_leaf(uri));
        assert(leaf.children + children =~= children);
        lemma_all_named(root.children, "profile"@);
        lemma_uris(g.profiles);
    }
}

/// Whatever a peer announces, the other reads it as it was meant: a greeting that is rendered
/// and parsed again is the same greeting, whatever its profiles and attributes hold.
pub proof fn law_greetings_round_trip(g: GreetingView)
    ensures
        GreetingView::of_payload(g.payload()) == Ok::<GreetingView, Error>(g),
{
    mime::law_documents_survive_their_headers(g.document());
    lemma_document(g);
}

/// The frame that carries a greeting is read back as that greeting.
pub proof fn law_greeting_frames_round_trip(g: GreetingView)
    ensures
        GreetingView::of_frame(
            DataView {
                kind: FrameKind::Rpy,
                channel: GREETING_CHANNEL,
                msgno: 0,
                more: false,
                seqno: 0,
                ansno: None,
                payload: g.payload(),
            },
        ) == Ok::<GreetingView, Error>(g),
{
    law_greetings_round_trip(g);
}

/// A greeting comes in one whole `RPY` on channel 0, the first message and the first octets there,
/// and is then what its payload says. In anything else it is refused.
pub proof fn law_greetings_come_first(f: DataView)
    ensures
        f.kind == FrameKind::Rpy && f.channel == 0 && f.msgno == 0 && f.seqno == 0 && !f.more
            ==> GreetingView::of_frame(f) == GreetingView::of_payload(f.payload),
        !(f.kind == FrameKind::Rpy && f.channel == 0 && f.msgno == 0 && f.seqno == 0 && !f.more)
            ==> GreetingView::of_frame(f) matches Err(Error::NotAGreeting { .. }),
{
}

/// A greeting is read from its element: its profiles are the URIs of the profiles in it, in order,
/// and its features and its languages are its attributes. An element of another name is none.
pub proof fn law_greetings_are_what_their_element_says(root: ElementView)
    ensures
        match GreetingView::of_element(root) {
            Ok(g) => {
                &&& root.name == "greeting"@
                &&& g.features == root.attr("features"@)
                &&& g.localize == root.attr("localize"@)
                &&& g.profiles == uris(root.children_named("profile"@))
            },
            Err(e) => root.name != "greeting"@ && e == Error::UnexpectedElement,
        },
{
}

/// The URIs of a list of elements are those they have, in order; an element without one adds none.
pub proof fn law_uris_are_read_in_order(children: Seq<ElementView>, last: ElementView)
    ensures
        uris(Seq::empty()) == Seq::<Seq<char>>::empty(),
        uris(children.push(last)) == (match last.attr("uri"@) {
            Some(uri) => uris(children).push(uri),
            None => uris(children),
        }),
{
    assert(children.push(last).drop_last() =~= children);
}

/// A greeting is written as an element with its features and its languages, where it has any, and
/// with its profiles in it, one to a line; where it has none, the element is empty.
#[verifier::rlimit(40)]
#[verifier::spinoff_prover]
pub proof fn law_greetings_are_written(g: GreetingView, first: Seq<char>, more: Seq<Seq<char>>)
    ensures
        ({
            let tag = "<greeting"@ + (match g.features {
                Some(v) => " features='"@ + xml::escaped(v) + "'"@,
                None => Seq::empty(),
            }) + (match g.localize {
                Some(v) => " localize='"@ + xml::escaped(v) + "'"@,
                None => Seq::empty(),
            });
            g.document() == (if g.profiles.len() == 0 {
                tag + " />\r\n"@
            } else {
                tag + ">\r\n"@ + profile_lines(g.profiles) + "</greeting>\r\n"@
            })
        }),
        profile_lines(Seq::empty()) == Seq::<char>::empty(),
        profile_lines(seq![first] + more) == "   <profile uri='"@ + xml::escaped(first)
            + "' />\r\n"@ + profile_lines(more),
        g.payload() == utf8::encode_utf8(
            "Content-Type: application/beep+xml\r\n\r\n"@ + g.document(),
        ),
{
    assert((seq![first] + more).drop_first() =~= more);
    assert(mime::beep_xml_text(g.document()) =~= "Content-Type: application/beep+xml\r\n\r\n"@
        + g.document()) by {
        reveal_strlit("Content-Type: application/beep+xml\r\n\r\n");
        reveal_strlit("Content-Type");
        reveal_strlit(": ");
        reveal_strlit("application/beep+xml");
        reveal_strlit("\r\n\r\n");
    }
    if let Some(v) = g.features {
        assert(attr_text("features"@, v) =~= " features='"@ + xml::escaped(v) + "'"@) by {
            reveal_strlit(" ");
            reveal_strlit("features");
            reveal_strlit("='");
            reveal_strlit(" features='");
            reveal_strlit("'");
        }
    }
    if let Some(v) = g.localize {
        assert(attr_text("localize"@, v) =~= " localize='"@ + xml::escaped(v) + "'"@) by {
            reveal_strlit(" ");
            reveal_strlit("localize");
            reveal_strlit("='");
            reveal_strlit(" localize='");
            reveal_strlit("'");
        }
    }
    let tag = "<greeting"@ + (match g.features {
        Some(v) => " features='"@ + xml::escaped(v) + "'"@,
        None => Seq::empty(),
    }) + (match g.localize {
        Some(v) => " localize='"@ + xml::escaped(v) + "'"@,
        None => Seq::empty(),
    });
    assert(tag + (">\r\n"@ + profile_lines(g.profiles) + "</greeting>\r\n"@) =~= tag + ">\r\n"@
        + profile_lines(g.profiles) + "</greeting>\r\n"@);
}

} // verus!
