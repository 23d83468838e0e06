//! A minimal XML reader for BEEP channel-management messages.
//!
//! BEEP carries `<greeting>`, `<start>`, `<close>`, `<ok>` and `<error>` on channel 0. The
//! grammar involved is tiny and fixed by RFC 3080, so this module implements exactly that
//! subset rather than pulling in a general XML parser.
//!
//! What is supported: elements, attributes with either quote style, self-closing elements,
//! character data, `CDATA` sections, comments, the XML declaration, a `DOCTYPE` declaration,
//! and the five predefined entities plus numeric character references. What is not:
//! namespaces, processing instructions inside content, and entity declarations. None of
//! those appear in BEEP channel management.

use crate::error::Error;
use crate::octets;
use crate::text;
use std::borrow::Cow;
use vstd::prelude::*;
use vstd::string::*;
use vstd::utf8;

pub mod grammar;

verus! {

/// Deepest element nesting accepted.
pub const MAX_DEPTH: usize = 32;

/// Longest entity reference accepted, e.g. `&#x10FFFF;`.
pub const MAX_ENTITY_LEN: usize = 12;

// ---- the grammar -----------------------------------------------------------------

/// What an element says.
#[verifier::ext_equal]
pub struct ElementView {
    pub name: Seq<char>,
    pub attrs: Seq<(Seq<char>, Seq<char>)>,
    pub children: Seq<ElementView>,
    pub text: Seq<char>,
}

impl ElementView {
    /// An element with nothing in it.
    pub open spec fn leaf(name: Seq<char>, attrs: Seq<(Seq<char>, Seq<char>)>) -> ElementView {
        ElementView { name, attrs, children: Seq::empty(), text: Seq::empty() }
    }

    /// The value of the first attribute of that name.
    pub open spec fn attr(self, name: Seq<char>) -> Option<Seq<char>> {
        first_attr(self.attrs, name)
    }

    /// The direct children with the given element name.
    pub open spec fn children_named(self, name: Seq<char>) -> Seq<ElementView> {
        self.children.filter(|child: ElementView| child.name == name)
    }
}

/// The value of the first attribute of that name.
pub open spec fn first_attr(attrs: Seq<(Seq<char>, Seq<char>)>, name: Seq<char>) -> Option<
    Seq<char>,
>
    decreases attrs.len(),
{
    if attrs.len() == 0 {
        None
    } else if attrs[0].0 == name {
        Some(attrs[0].1)
    } else {
        first_attr(attrs.drop_first(), name)
    }
}

/// The error for a document that does not follow the grammar.
pub open spec fn xml_error(reason: &'static str) -> Error {
    Error::Xml { reason }
}

/// Whether a character is white space between tags and attributes.
pub open spec fn is_space(c: char) -> bool {
    c == ' ' || c == '\t' || c == '\r' || c == '\n'
}

/// Whether a character ends a name.
pub open spec fn ends_name(c: char) -> bool {
    is_space(c) || c == '/' || c == '>' || c == '=' || c == '<'
}

/// What is left once leading white space is gone.
pub open spec fn skip_space(s: Seq<char>) -> Seq<char> {
    text::trimmed_start(s, |c: char| is_space(c))
}

/// The text before the first `pat`, and what follows that `pat`.
pub open spec fn upto(s: Seq<char>, pat: Seq<char>) -> Option<(Seq<char>, Seq<char>)> {
    match text::find(s, pat) {
        Some(k) => Some((s.take(k), s.skip(k + pat.len()))),
        None => None,
    }
}

/// What follows the first `pat`, which has to be there.
pub open spec fn past(s: Seq<char>, pat: Seq<char>) -> Result<Seq<char>, Error> {
    match upto(s, pat) {
        Some((_, rest)) => Ok(rest),
        None => Err(xml_error("unterminated declaration or comment")),
    }
}

/// What is left once leading white space, comments, the XML declaration and a `DOCTYPE`
/// declaration are gone.
#[verifier::opaque]
pub open spec fn skip_prolog(s: Seq<char>) -> Result<Seq<char>, Error>
    decreases s.len(),
    via skip_prolog_decreases
{
    let t = skip_space(s);
    let next = if text::begins(t, seq!['<', '?']) {
        Some(past(t, seq!['?', '>']))
    } else if text::begins(t, seq!['<', '!', '-', '-']) {
        Some(past(t, seq!['-', '-', '>']))
    } else if text::begins(t, seq!['<', '!']) {
        Some(past(t, seq!['>']))
    } else {
        None
    };
    match next {
        None => Ok(t),
        Some(Err(e)) => Err(e),
        Some(Ok(rest)) => skip_prolog(rest),
    }
}

#[via_fn]
proof fn skip_prolog_decreases(s: Seq<char>) {
    let t = skip_space(s);
    lemma_skip_space(s);
    lemma_upto(t, seq!['?', '>']);
    lemma_upto(t, seq!['-', '-', '>']);
    lemma_upto(t, seq!['>']);
}

/// White space is never more than what there is.
pub proof fn lemma_skip_space(s: Seq<char>)
    ensures
        skip_space(s).len() <= s.len(),
        skip_space(s).len() > 0 ==> !is_space(skip_space(s)[0]),
        s.len() > 0 && is_space(s[0]) ==> skip_space(s) == skip_space(s.drop_first()),
        s.len() == 0 || !is_space(s[0]) ==> skip_space(s) == s,
    decreases s.len(),
{
    if s.len() > 0 && is_space(s[0]) {
        lemma_skip_space(s.drop_first());
    }
}

/// What follows a pattern is shorter than what it was found in.
pub proof fn lemma_upto(s: Seq<char>, pat: Seq<char>)
    ensures
        upto(s, pat) matches Some((before, rest)) ==> before.len() + pat.len() + rest.len()
            == s.len() && before + pat + rest == s,
{
    text::lemma_find(s, pat);
    if let Some(k) = text::find(s, pat) {
        assert(s.take(k) + s.subrange(k, k + pat.len()) + s.skip(k + pat.len()) =~= s);
    }
}

/// A name and what follows it.
pub open spec fn name(s: Seq<char>) -> Result<(Seq<char>, Seq<char>), Error> {
    let k = text::until(s, |c: char| ends_name(c));
    if k == 0 {
        Err(xml_error("expected an element or attribute name"))
    } else {
        Ok((s.take(k), s.skip(k)))
    }
}

/// The value of a digit in the given base.
pub open spec fn digit_value(c: char, radix: nat) -> Option<nat> {
    let v: int = if '0' <= c <= '9' {
        c as int - '0' as int
    } else if 'a' <= c <= 'z' {
        c as int - 'a' as int + 10
    } else if 'A' <= c <= 'Z' {
        c as int - 'A' as int + 10
    } else {
        radix as int
    };
    if v < radix {
        Some(v as nat)
    } else {
        None
    }
}

/// The number that digits write in the given base, if they are digits.
pub open spec fn digits_value(s: Seq<char>, radix: nat) -> Option<nat>
    decreases s.len(),
{
    if s.len() == 0 {
        Some(0)
    } else {
        match (digits_value(s.drop_last(), radix), digit_value(s.last(), radix)) {
            (Some(n), Some(d)) => Some(n * radix + d),
            _ => None,
        }
    }
}

/// The 32 bit number that a text writes: an optional plus sign and then digits.
pub open spec fn unsigned(s: Seq<char>, radix: nat) -> Option<nat> {
    let digits = if s.len() > 0 && s[0] == '+' {
        s.drop_first()
    } else {
        s
    };
    if digits.len() == 0 {
        None
    } else {
        match digits_value(digits, radix) {
            Some(n) => if n <= u32::MAX {
                Some(n)
            } else {
                None
            },
            None => None,
        }
    }
}

/// The character that a numeric reference names: `#` and decimal digits, or `#x` and
/// hexadecimal ones.
pub open spec fn numeric_reference(reference: Seq<char>) -> Result<char, Error> {
    let digits = reference.drop_first();
    let value = if reference.len() == 0 || reference[0] != '#' {
        None
    } else if digits.len() > 0 && (digits[0] == 'x' || digits[0] == 'X') {
        unsigned(digits.drop_first(), 16)
    } else {
        unsigned(digits, 10)
    };
    match value {
        Some(n) => if utf8::is_scalar(n as u32) {
            Ok((n as u32) as char)
        } else {
            Err(xml_error("unsupported entity reference"))
        },
        None => Err(xml_error("unsupported entity reference")),
    }
}

/// The character that a reference names, given what stands between `&` and `;`.
pub open spec fn entity(reference: Seq<char>) -> Result<char, Error> {
    if reference == seq!['a', 'm', 'p'] {
        Ok('&')
    } else if reference == seq!['l', 't'] {
        Ok('<')
    } else if reference == seq!['g', 't'] {
        Ok('>')
    } else if reference == seq!['q', 'u', 'o', 't'] {
        Ok('"')
    } else if reference == seq!['a', 'p', 'o', 's'] {
        Ok('\'')
    } else {
        numeric_reference(reference)
    }
}

/// The text with its entity and character references expanded. The `;` that ends a reference
/// has to be among the first [`MAX_ENTITY_LEN`] octets after its `&`.
#[verifier::opaque]
pub open spec fn expanded(raw: Seq<char>) -> Result<Seq<char>, Error>
    decreases raw.len(),
    via expanded_decreases
{
    let at = text::until(raw, text::just('&'));
    if at == raw.len() {
        Ok(raw)
    } else {
        let tail = raw.skip(at + 1);
        let end = text::until(tail, text::just(';'));
        if end == tail.len() || utf8::encode_utf8(tail.take(end)).len() >= MAX_ENTITY_LEN {
            Err(xml_error("unterminated entity reference"))
        } else {
            match (entity(tail.take(end)), expanded(tail.skip(end + 1))) {
                (Err(e), _) => Err(e),
                (_, Err(e)) => Err(e),
                (Ok(c), Ok(rest)) => Ok(raw.take(at).push(c) + rest),
            }
        }
    }
}

#[via_fn]
proof fn expanded_decreases(raw: Seq<char>) {
    text::lemma_until(raw, text::just('&'));
    let at = text::until(raw, text::just('&'));
    if at < raw.len() {
        let tail = raw.skip(at + 1);
        text::lemma_until(tail, text::just(';'));
    }
}

/// A quoted attribute value, with its references expanded, and what follows it.
pub open spec fn quoted(s: Seq<char>) -> Result<(Seq<char>, Seq<char>), Error> {
    if s.len() == 0 || (s[0] != '"' && s[0] != '\'') {
        Err(xml_error("attribute value must be quoted"))
    } else {
        let body = s.drop_first();
        let k = text::until(body, text::just(s[0]));
        if k == body.len() {
            Err(xml_error("unterminated attribute value"))
        } else {
            match expanded(body.take(k)) {
                Err(e) => Err(e),
                Ok(value) => Ok((value, body.skip(k + 1))),
            }
        }
    }
}

/// One attribute and what follows it.
pub open spec fn attribute(s: Seq<char>) -> Result<((Seq<char>, Seq<char>), Seq<char>), Error> {
    match name(s) {
        Err(e) => Err(e),
        Ok((key, s1)) => {
            let s2 = skip_space(s1);
            if s2.len() == 0 || s2[0] != '=' {
                Err(xml_error("expected '=' after an attribute name"))
            } else {
                match quoted(skip_space(s2.drop_first())) {
                    Err(e) => Err(e),
                    Ok((value, s3)) => Ok(((key, value), s3)),
                }
            }
        },
    }
}

/// An attribute takes at least one character.
pub proof fn lemma_attribute(s: Seq<char>)
    ensures
        attribute(s) matches Ok((_, rest)) ==> rest.len() < s.len(),
{
    text::lemma_until(s, |c: char| ends_name(c));
    if let Ok((key, s1)) = name(s) {
        lemma_skip_space(s1);
        let s2 = skip_space(s1);
        if s2.len() > 0 {
            lemma_skip_space(s2.drop_first());
            let s3 = skip_space(s2.drop_first());
            if s3.len() > 0 {
                text::lemma_until(s3.drop_first(), text::just(s3[0]));
            }
        }
    }
}

/// What a start tag holds after the element's name.
#[verifier::ext_equal]
pub struct TagView {
    pub attrs: Seq<(Seq<char>, Seq<char>)>,
    /// Whether the tag closes itself.
    pub closed: bool,
    pub rest: Seq<char>,
}

/// The attributes of a start tag, after those already read, and how the tag ends.
#[verifier::opaque]
pub open spec fn tag(s: Seq<char>, attrs: Seq<(Seq<char>, Seq<char>)>) -> Result<TagView, Error>
    decreases s.len(),
    via tag_decreases
{
    let t = skip_space(s);
    if t.len() == 0 {
        Err(xml_error("unterminated start tag"))
    } else if t[0] == '/' {
        if t.len() > 1 && t[1] == '>' {
            Ok(TagView { attrs, closed: true, rest: t.skip(2) })
        } else {
            Err(xml_error("expected '>' closing an empty element"))
        }
    } else if t[0] == '>' {
        Ok(TagView { attrs, closed: false, rest: t.skip(1) })
    } else {
        match attribute(t) {
            Err(e) => Err(e),
            Ok((attr, rest)) => tag(rest, attrs.push(attr)),
        }
    }
}

#[via_fn]
proof fn tag_decreases(s: Seq<char>, attrs: Seq<(Seq<char>, Seq<char>)>) {
    lemma_skip_space(s);
    lemma_attribute(skip_space(s));
}

/// A start tag takes at least one character.
pub proof fn lemma_tag(s: Seq<char>, attrs: Seq<(Seq<char>, Seq<char>)>)
    ensures
        tag(s, attrs) matches Ok(t) ==> t.rest.len() < s.len(),
    decreases s.len(),
{
    reveal(tag);
    lemma_skip_space(s);
    let t = skip_space(s);
    lemma_attribute(t);
    if t.len() > 0 && t[0] != '/' && t[0] != '>' {
        if let Ok((attr, rest)) = attribute(t) {
            lemma_tag(rest, attrs.push(attr));
        }
    }
}

/// An element and what follows it, `depth` levels below the root.
#[verifier::opaque]
pub open spec fn element(s: Seq<char>, depth: nat) -> Result<(ElementView, Seq<char>), Error>
    decreases MAX_DEPTH + 2 - depth, s.len(), 1int,
    via element_decreases
{
    if depth > MAX_DEPTH {
        Err(xml_error("element nesting too deep"))
    } else if s.len() == 0 || s[0] != '<' {
        Err(xml_error("expected an element"))
    } else {
        match name(s.drop_first()) {
            Err(e) => Err(e),
            Ok((name, s1)) => match tag(s1, Seq::empty()) {
                Err(e) => Err(e),
                Ok(t) => if t.closed {
                    Ok((ElementView::leaf(name, t.attrs), t.rest))
                } else {
                    content(ElementView::leaf(name, t.attrs), t.rest, depth)
                },
            },
        }
    }
}

#[via_fn]
proof fn element_decreases(s: Seq<char>, depth: nat) {
    if s.len() > 0 {
        text::lemma_until(s.drop_first(), |c: char| ends_name(c));
        if let Ok((_, s1)) = name(s.drop_first()) {
            lemma_tag(s1, Seq::empty());
        }
    }
}

/// The end tag of an element, after its `</`, and what follows it.
pub open spec fn end_tag(e: ElementView, s: Seq<char>) -> Result<Seq<char>, Error> {
    match name(s) {
        Err(e) => Err(e),
        Ok((closing, s1)) => {
            let s2 = skip_space(s1);
            if s2.len() == 0 || s2[0] != '>' {
                Err(xml_error("expected '>' closing an end tag"))
            } else if closing != e.name {
                Err(xml_error("end tag does not match its start tag"))
            } else {
                Ok(s2.drop_first())
            }
        },
    }
}

/// What opens a `CDATA` section.
pub open spec fn cdata_open() -> Seq<char> {
    seq!['<', '!', '[', 'C', 'D', 'A', 'T', 'A', '[']
}

/// What closes a `CDATA` section.
pub open spec fn cdata_close() -> Seq<char> {
    seq![']', ']', '>']
}

/// The content of an element up to its end tag, added to what has been read of it, and what
/// follows that tag.
#[verifier::opaque]
pub open spec fn content(e: ElementView, s: Seq<char>, depth: nat) -> Result<
    (ElementView, Seq<char>),
    Error,
>
    decreases MAX_DEPTH + 2 - depth, s.len(), 0int,
    when depth <= MAX_DEPTH
    via content_decreases
{
    if text::begins(s, seq!['<', '/']) {
        match end_tag(e, s.skip(2)) {
            Err(error) => Err(error),
            Ok(rest) => Ok((e, rest)),
        }
    } else if text::begins(s, seq!['<', '!', '-', '-']) {
        match past(s, seq!['-', '-', '>']) {
            Err(error) => Err(error),
            Ok(rest) => content(e, rest, depth),
        }
    } else if text::begins(s, cdata_open()) {
        match upto(s.skip(9), cdata_close()) {
            None => Err(xml_error("unterminated declaration or comment")),
            Some((literal, rest)) => content(
                ElementView { text: e.text + literal, ..e },
                rest,
                depth,
            ),
        }
    } else if s.len() == 0 {
        Err(xml_error("unterminated element content"))
    } else if s[0] == '<' {
        match element(s, depth + 1) {
            Err(error) => Err(error),
            Ok((child, rest)) => if rest.len() < s.len() {
                content(ElementView { children: e.children.push(child), ..e }, rest, depth)
            } else {
                Err(xml_error("expected an element"))
            },
        }
    } else {
        let k = text::until(s, text::just('<'));
        match expanded(s.take(k)) {
            Err(error) => Err(error),
            Ok(more) => content(ElementView { text: e.text + more, ..e }, s.skip(k), depth),
        }
    }
}

#[via_fn]
proof fn content_decreases(e: ElementView, s: Seq<char>, depth: nat) {
    lemma_upto(s, seq!['-', '-', '>']);
    if s.len() >= 9 {
        lemma_upto(s.skip(9), cdata_close());
    }
    text::lemma_until(s, text::just('<'));
}

/// A document of exactly one root element.
pub open spec fn document(s: Seq<char>) -> Result<ElementView, Error> {
    match skip_prolog(s) {
        Err(e) => Err(e),
        Ok(s1) => match element(s1, 0) {
            Err(e) => Err(e),
            Ok((root, s2)) => match skip_prolog(s2) {
                Err(e) => Err(e),
                Ok(s3) => if s3.len() > 0 {
                    Err(xml_error("trailing content after the root element"))
                } else {
                    Ok(root)
                },
            },
        },
    }
}

/// What parsing octets as a document gives.
pub open spec fn parsed(input: Seq<u8>) -> Result<ElementView, Error> {
    if utf8::valid_utf8(input) {
        document(utf8::decode_utf8(input))
    } else {
        Err(Error::NotUtf8)
    }
}

// ---- what stands in the document -------------------------------------------------

/// A quoted attribute value as it stands between its quotes.
pub open spec fn raw_value(s: Seq<char>) -> Seq<char> {
    let body = s.drop_first();
    body.take(text::until(body, text::just(s[0])))
}

/// The value of an attribute as it stands between its quotes.
pub open spec fn raw_attribute(s: Seq<char>) -> Seq<char> {
    match name(s) {
        Err(_) => Seq::empty(),
        Ok((_, s1)) => raw_value(skip_space(skip_space(s1).drop_first())),
    }
}

/// The values of the attributes of a start tag as they stand between their quotes, after those
/// already read.
#[verifier::opaque]
pub open spec fn raw_values(s: Seq<char>, raws: Seq<Seq<char>>) -> Seq<Seq<char>>
    decreases s.len(),
    via raw_values_decreases
{
    let t = skip_space(s);
    if t.len() == 0 || t[0] == '/' || t[0] == '>' {
        raws
    } else {
        match attribute(t) {
            Err(_) => raws,
            Ok((_, rest)) => raw_values(rest, raws.push(raw_attribute(t))),
        }
    }
}

#[via_fn]
proof fn raw_values_decreases(s: Seq<char>, raws: Seq<Seq<char>>) {
    lemma_skip_space(s);
    lemma_attribute(skip_space(s));
}

/// The places at which the children of an element start, in its content, after those already
/// passed.
#[verifier::opaque]
pub open spec fn children_at(s: Seq<char>, depth: nat, starts: Seq<Seq<char>>) -> Seq<Seq<char>>
    decreases s.len(),
    via children_at_decreases
{
    if s.len() == 0 || text::begins(s, seq!['<', '/']) {
        starts
    } else if text::begins(s, seq!['<', '!', '-', '-']) {
        match past(s, seq!['-', '-', '>']) {
            Err(_) => starts,
            Ok(rest) => children_at(rest, depth, starts),
        }
    } else if text::begins(s, cdata_open()) {
        match upto(s.skip(9), cdata_close()) {
            None => starts,
            Some((_, rest)) => children_at(rest, depth, starts),
        }
    } else if s[0] == '<' {
        match element(s, depth + 1) {
            Err(_) => starts,
            Ok((_, rest)) => if rest.len() < s.len() {
                children_at(rest, depth, starts.push(s))
            } else {
                starts
            },
        }
    } else {
        children_at(s.skip(text::until(s, text::just('<'))), depth, starts)
    }
}

#[via_fn]
proof fn children_at_decreases(s: Seq<char>, depth: nat, starts: Seq<Seq<char>>) {
    lemma_upto(s, seq!['-', '-', '>']);
    if s.len() >= 9 {
        lemma_upto(s.skip(9), cdata_close());
    }
    text::lemma_until(s, text::just('<'));
}

// ---- the reader ------------------------------------------------------------------

/// A parsed XML element.
#[derive(Debug, PartialEq, Eq)]
pub struct Element<'a> {
    pub name: &'a str,
    pub attrs: Vec<(&'a str, Cow<'a, str>)>,
    pub children: Vec<Element<'a>>,
    pub text: String,
}

/// The attributes of an element, as views.
pub open spec fn attr_views<'a>(attrs: Seq<(&'a str, Cow<'a, str>)>) -> Seq<
    (Seq<char>, Seq<char>),
> {
    attrs.map_values(|a: (&'a str, Cow<'a, str>)| (a.0@, a.1@))
}

/// The elements of a list, as views.
pub open spec fn element_views<'a>(elements: Seq<Element<'a>>) -> Seq<ElementView>
    decreases elements,
{
    if elements.len() == 0 {
        Seq::empty()
    } else {
        element_views(elements.drop_last()).push(elements.last().model())
    }
}

proof fn lemma_element_views<'a>(elements: Seq<Element<'a>>)
    ensures
        element_views(elements).len() == elements.len(),
        forall|i: int|
            0 <= i < elements.len() ==> #[trigger] element_views(elements)[i]
                == elements[i].model(),
    decreases elements.len(),
{
    if elements.len() > 0 {
        lemma_element_views(elements.drop_last());
    }
}

proof fn lemma_element_views_push<'a>(elements: Seq<Element<'a>>, last: Element<'a>)
    ensures
        element_views(elements.push(last)) == element_views(elements).push(last.model()),
{
    assert(elements.push(last).drop_last() =~= elements);
}

/// Whether attribute values are borrowed from the document exactly where, as they stand there,
/// they hold no reference to expand.
pub open spec fn values_borrow<'a>(
    attrs: Seq<(&'a str, Cow<'a, str>)>,
    raws: Seq<Seq<char>>,
) -> bool {
    &&& attrs.len() == raws.len()
    &&& forall|i: int|
        0 <= i < attrs.len() ==> ((#[trigger] attrs[i]).1 is Borrowed <==> !raws[i].contains('&'))
}

/// Whether the elements of a list, each with the place at which it starts, borrow what they can.
pub open spec fn all_borrow<'a>(
    elements: Seq<Element<'a>>,
    starts: Seq<Seq<char>>,
    depth: nat,
) -> bool
    decreases elements,
{
    &&& elements.len() == starts.len()
    &&& elements.len() > 0 ==> {
        &&& all_borrow(elements.drop_last(), starts.drop_last(), depth)
        &&& elements.last().borrows(starts.last(), depth)
    }
}

proof fn lemma_all_borrow_push<'a>(
    elements: Seq<Element<'a>>,
    starts: Seq<Seq<char>>,
    depth: nat,
    last: Element<'a>,
    start: Seq<char>,
)
    requires
        all_borrow(elements, starts, depth),
        last.borrows(start, depth),
    ensures
        all_borrow(elements.push(last), starts.push(start), depth),
{
    assert(elements.push(last).drop_last() =~= elements);
    assert(starts.push(start).drop_last() =~= starts);
}

/// Where the elements of a list borrow what they can, each of them does, from where it starts.
pub proof fn law_each_element_borrows_what_it_can<'a>(
    elements: Seq<Element<'a>>,
    starts: Seq<Seq<char>>,
    depth: nat,
)
    requires
        all_borrow(elements, starts, depth),
    ensures
        forall|i: int|
            0 <= i < elements.len() ==> (#[trigger] elements[i]).borrows(starts[i], depth),
    decreases elements.len(),
{
    if elements.len() > 0 {
        let init = elements.drop_last();
        law_each_element_borrows_what_it_can(init, starts.drop_last(), depth);
        assert forall|i: int| 0 <= i < elements.len() implies (#[trigger] elements[i]).borrows(
            starts[i],
            depth,
        ) by {
            if i < init.len() {
                assert(init[i] == elements[i]);
            }
        }
    }
}

impl<'a> View for Element<'a> {
    type V = ElementView;

    open spec fn view(&self) -> ElementView {
        self.model()
    }
}

impl<'a> Element<'a> {
    /// What the element says.
    pub open spec fn model(self) -> ElementView
        decreases self,
    {
        ElementView {
            name: self.name@,
            attrs: attr_views(self.attrs@),
            children: element_views(self.children@),
            text: self.text@,
        }
    }

    /// Whether the element, which starts at `s`, borrows from the document the value of every
    /// attribute that holds nothing to expand, and of no other, and whether all elements in it do.
    pub open spec fn borrows(self, s: Seq<char>, depth: nat) -> bool
        decreases self,
    {
        match name(s.drop_first()) {
            Err(_) => false,
            Ok((_, s1)) => {
                &&& values_borrow(self.attrs@, raw_values(s1, Seq::empty()))
                &&& match tag(s1, Seq::empty()) {
                    Err(_) => false,
                    Ok(t) => all_borrow(
                        self.children@,
                        if t.closed {
                            Seq::empty()
                        } else {
                            children_at(t.rest, depth, Seq::empty())
                        },
                        depth + 1,
                    ),
                }
            },
        }
    }

    /// The value of an attribute, or `None` when it is absent.
    pub fn attr(&self, name: &str) -> (r: Option<&str>)
        ensures
            self@.attr(name@) == (match r {
                Some(value) => Some(value@),
                None => None,
            }),
    {
        let ghost all = self@.attrs;
        let mut i: usize = 0;
        assert(all.skip(0) =~= all);
        while i < self.attrs.len()
            invariant
                i <= self.attrs@.len(),
                all == attr_views(self.attrs@),
                first_attr(all, name@) == first_attr(all.skip(i as int), name@),
            decreases self.attrs@.len() - i,
        {
            assert(all.skip(i as int).drop_first() =~= all.skip(i + 1));
            if same_text(self.attrs[i].0, name) {
                return Some(cow_text(&self.attrs[i].1));
            }
            i += 1;
        }
        assert(all.skip(i as int).len() == 0);
        None
    }

    /// The direct children with the given element name.
    pub fn children_named<'s>(&'s self, name: &str) -> (r: Vec<&'s Element<'a>>)
        ensures
            r@.map_values(|e: &'s Element<'a>| e@) == self@.children_named(name@),
    {
        let ghost all = self@.children;
        let ghost wanted = |child: ElementView| child.name == name@;
        let mut out: Vec<&'s Element<'a>> = Vec::new();
        let mut i: usize = 0;
        assert(all.take(0).filter(wanted) =~= Seq::empty()) by {
            reveal(Seq::filter);
        }
        while i < self.children.len()
            invariant
                i <= self.children@.len(),
                all == element_views(self.children@),
                wanted == (|child: ElementView| child.name == name@),
                out@.map_values(|e: &'s Element<'a>| e@) == all.take(i as int).filter(wanted),
            decreases self.children@.len() - i,
        {
            let ghost before = out@.map_values(|e: &'s Element<'a>| e@);
            proof {
                lemma_element_views(self.children@);
                assert(all.take(i + 1).drop_last() =~= all.take(i as int));
                assert(all.take(i + 1).filter(wanted) == {
                    let rest = all.take(i as int).filter(wanted);
                    if wanted(all[i as int]) {
                        rest.push(all[i as int])
                    } else {
                        rest
                    }
                }) by {
                    reveal(Seq::filter);
                }
            }
            if same_text(self.children[i].name, name) {
                out.push(&self.children[i]);
                assert(out@.map_values(|e: &'s Element<'a>| e@) =~= before.push(all[i as int]));
            }
            i += 1;
        }
        proof {
            lemma_element_views(self.children@);
            assert(all.take(i as int) =~= all);
        }
        out
    }
}

/// The text of a value that may be borrowed or owned.
fn cow_text<'s, 'a>(value: &'s Cow<'a, str>) -> (r: &'s str)
    ensures
        r@ == value@,
{
    match value {
        Cow::Borrowed(s) => s,
        Cow::Owned(s) => s.as_str(),
    }
}

/// Whether two strings are the same.
pub(crate) fn same_text(a: &str, b: &str) -> (r: bool)
    ensures
        r == (a@ == b@),
{
    let r = octets::same(a.as_bytes(), b.as_bytes());
    proof {
        if r {
            text::lemma_encode_injective(a@, b@);
        }
    }
    r
}

/// What a character is written as in element text and in a quoted attribute value.
pub open spec fn escaped_char(c: char) -> Seq<char> {
    if c == '&' {
        seq!['&', 'a', 'm', 'p', ';']
    } else if c == '<' {
        seq!['&', 'l', 't', ';']
    } else if c == '>' {
        seq!['&', 'g', 't', ';']
    } else if c == '\'' {
        seq!['&', 'a', 'p', 'o', 's', ';']
    } else if c == '"' {
        seq!['&', 'q', 'u', 'o', 't', ';']
    } else {
        seq![c]
    }
}

/// A text as it is written in element text and in a quoted attribute value.
pub open spec fn escaped(value: Seq<char>) -> Seq<char>
    decreases value.len(),
{
    if value.len() == 0 {
        Seq::empty()
    } else {
        escaped_char(value[0]) + escaped(value.drop_first())
    }
}

/// Escapes the characters that cannot appear literally in element text or in a quoted
/// attribute value, so that no value written that way can inject markup into a
/// channel-management message. Profile content is written in `CDATA` sections instead, by
/// [`push_cdata`].
pub fn escape(out: &mut String, value: &str)
    ensures
        final(out)@ == old(out)@ + escaped(value@),
{
    proof {
        reveal_strlit("&amp;");
        reveal_strlit("&lt;");
        reveal_strlit("&gt;");
        reveal_strlit("&apos;");
        reveal_strlit("&quot;");
    }
    let chars = text::chars_of(value);
    let ghost before = out@;
    let mut i: usize = 0;
    assert(chars@.skip(0) =~= value@);
    while i < chars.len()
        invariant
            i <= chars@.len(),
            out@ + escaped(chars@.skip(i as int)) == before + escaped(value@),
            "&amp;"@ =~= escaped_char('&'),
            "&lt;"@ =~= escaped_char('<'),
            "&gt;"@ =~= escaped_char('>'),
            "&apos;"@ =~= escaped_char('\''),
            "&quot;"@ =~= escaped_char('"'),
        decreases chars@.len() - i,
    {
        let c = chars[i];
        let ghost so_far = out@;
        let ghost rest = chars@.skip(i as int);
        if c == '&' {
            out.push_str("&amp;");
        } else if c == '<' {
            out.push_str("&lt;");
        } else if c == '>' {
            out.push_str("&gt;");
        } else if c == '\'' {
            out.push_str("&apos;");
        } else if c == '"' {
            out.push_str("&quot;");
        } else {
            out.push(c);
        }
        proof {
            assert(out@ =~= so_far + escaped_char(c));
            assert(rest.drop_first() =~= chars@.skip(i + 1));
            assert(out@ + escaped(rest.drop_first()) =~= so_far + (escaped_char(c) + escaped(
                rest.drop_first(),
            )));
        }
        i += 1;
    }
    assert(escaped(chars@.skip(i as int)) =~= Seq::<char>::empty());
    assert(out@ =~= out@ + Seq::<char>::empty());
}

/// A text as it is written between the opening of a first `CDATA` section and the close of a
/// last: a `]]>` in it is divided over two sections, so that it closes neither.
pub open spec fn sectioned(literal: Seq<char>) -> Seq<char>
    decreases literal.len(),
{
    match text::find(literal, cdata_close()) {
        None => literal,
        Some(k) => {
            proof {
                text::lemma_find(literal, cdata_close());
            }
            literal.take(k + 2) + cdata_close() + cdata_open() + sectioned(literal.skip(k + 2))
        },
    }
}

/// Where no `]]>` stands, the first character is written as it is.
proof fn lemma_sectioned_step(literal: Seq<char>)
    requires
        literal.len() > 0,
    ensures
        sectioned(literal) == (if text::begins(literal, cdata_close()) {
            literal.take(2) + cdata_close() + cdata_open() + sectioned(literal.skip(2))
        } else {
            seq![literal[0]] + sectioned(literal.drop_first())
        }),
{
    let rest = literal.drop_first();
    text::lemma_find(literal, cdata_close());
    text::lemma_find(rest, cdata_close());
    if !text::begins(literal, cdata_close()) {
        match text::find(rest, cdata_close()) {
            Some(k) => {
                assert(text::find(literal, cdata_close()) == Some(k + 1));
                assert(literal.take(k + 3) =~= seq![literal[0]] + rest.take(k + 2));
                assert(literal.skip(k + 3) =~= rest.skip(k + 2));
                assert(sectioned(literal) =~= seq![literal[0]] + sectioned(rest));
            },
            None => {
                assert(text::find(literal, cdata_close()) is None);
                assert(literal =~= seq![literal[0]] + rest);
            },
        }
    }
}

/// Appends a text in `CDATA` sections, as many as it takes for it to close none of them.
pub fn push_cdata(out: &mut String, literal: &str)
    ensures
        final(out)@ == old(out)@ + (cdata_open() + sectioned(literal@) + cdata_close()),
{
    proof {
        reveal_strlit("<![CDATA[");
        reveal_strlit("]]>");
        reveal_strlit("]]]]><![CDATA[");
    }
    let ghost before = out@;
    let chars = text::chars_of(literal);
    let close: [char; 3] = [']', ']', '>'];
    assert(close@ =~= cdata_close());
    out.push_str("<![CDATA[");
    let ghost opened = out@;
    assert(opened =~= before + cdata_open());
    let mut i: usize = 0;
    assert(chars@.skip(0) =~= literal@);
    while i < chars.len()
        invariant
            i <= chars@.len(),
            close@ == cdata_close(),
            out@ + sectioned(chars@.skip(i as int)) == opened + sectioned(literal@),
            "]]]]><![CDATA["@ =~= seq![']', ']'] + cdata_close() + cdata_open(),
        decreases chars@.len() - i,
    {
        let ghost so_far = out@;
        let ghost rest = chars@.skip(i as int);
        proof {
            lemma_sectioned_step(rest);
        }
        if text::chars_stand(chars.as_slice(), close.as_slice(), i) {
            out.push_str("]]]]><![CDATA[");
            proof {
                assert(chars@.subrange(i as int, i + 3) =~= rest.subrange(0, 3));
                assert(rest.subrange(0, 3)[0] == ']' && rest.subrange(0, 3)[1] == ']');
                assert(rest.take(2) =~= seq![']', ']']);
                assert(rest.skip(2) =~= chars@.skip(i + 2));
                assert(out@ + sectioned(rest.skip(2)) =~= so_far + sectioned(rest));
            }
            i += 2;
        } else {
            out.push(chars[i]);
            proof {
                if text::begins(rest, cdata_close()) {
                    assert(chars@.subrange(i as int, i + 3) =~= rest.subrange(0, 3));
                }
                assert(rest.drop_first() =~= chars@.skip(i + 1));
                assert(out@ + sectioned(rest.drop_first()) =~= so_far + sectioned(rest));
            }
            i += 1;
        }
    }
    proof {
        let none = chars@.skip(i as int);
        text::lemma_find(none, cdata_close());
        assert(sectioned(none) =~= Seq::<char>::empty());
        assert(out@ =~= opened + sectioned(literal@));
    }
    out.push_str("]]>");
    assert(out@ =~= before + (cdata_open() + sectioned(literal@) + cdata_close()));
}

/// The view of an element, or the error in its place.
pub open spec fn element_result<'a>(r: Result<Element<'a>, Error>) -> Result<ElementView, Error> {
    match r {
        Ok(e) => Ok(e@),
        Err(e) => Err(e),
    }
}

/// Parses a document holding exactly one root element. An attribute value with nothing to expand
/// is borrowed from the document.
pub fn parse(input: &[u8]) -> (r: Result<Element<'_>, Error>)
    ensures
        element_result(r) == parsed(input@),
        r matches Ok(root) ==> (skip_prolog(utf8::decode_utf8(input@)) matches Ok(start)
            && root.borrows(start, 0)),
{
    let src = match octets::str_from_utf8(input) {
        Some(src) => src,
        None => return Err(Error::NotUtf8),
    };
    proof {
        utf8::encode_utf8_decode_utf8(src@);
    }
    let mut parser = Parser { src, chars: text::chars_of(src), i: 0, at: 0 };
    assert(src@.take(0) =~= Seq::<char>::empty());
    assert(src@.skip(0) =~= src@);
    parser.skip_prolog()?;
    let root = parser.parse_element(0)?;
    parser.skip_prolog()?;
    if parser.i < parser.chars.len() {
        return Err(Error::Xml { reason: "trailing content after the root element" });
    }
    Ok(root)
}

/// A place in a text: which character stands there, and which octet.
struct Parser<'a> {
    src: &'a str,
    chars: Vec<char>,
    i: usize,
    at: usize,
}

impl<'a> Parser<'a> {
    spec fn ok(self) -> bool {
        &&& self.chars@ == self.src@
        &&& self.i <= self.chars@.len()
        &&& self.at == utf8::encode_utf8(self.src@.take(self.i as int)).len()
    }

    spec fn rest(self) -> Seq<char> {
        self.src@.skip(self.i as int)
    }

    /// Whether `self` has moved on from `before` in the same text.
    spec fn follows(self, before: Parser<'a>) -> bool {
        self.ok() && self.src == before.src && self.i >= before.i
    }

    fn peek(&self) -> (r: Option<char>)
        requires
            self.ok(),
        ensures
            match r {
                Some(c) => self.rest().len() > 0 && self.rest()[0] == c,
                None => self.rest().len() == 0,
            },
    {
        if self.i < self.chars.len() {
            Some(self.chars[self.i])
        } else {
            None
        }
    }

    /// Moves on by one character.
    fn bump(&mut self)
        requires
            old(self).ok(),
            old(self).rest().len() > 0,
        ensures
            final(self).follows(*old(self)),
            final(self).i == old(self).i + 1,
            final(self).rest() == old(self).rest().drop_first(),
    {
        let c = self.chars[self.i];
        let octets: usize = self.src.as_bytes().len();
        let count: usize = self.chars.len();
        proof {
            let here = self.src@.take(self.i as int);
            let next = self.src@.take(self.i + 1);
            assert(next =~= here.push(c));
            text::lemma_encode_push(here, c);
            assert(next + self.src@.skip(self.i + 1) =~= self.src@);
            text::lemma_encode_concat(next, self.src@.skip(self.i + 1));
            assert(self.rest().drop_first() =~= self.src@.skip(self.i + 1));
        }
        self.at += text::char_width(c);
        self.i += 1;
    }

    fn starts_with(&self, pat: &[char]) -> (r: bool)
        requires
            self.ok(),
        ensures
            r == text::begins(self.rest(), pat@),
    {
        if pat.len() > self.chars.len() - self.i {
            return false;
        }
        let count: usize = self.chars.len();
        let mut k: usize = 0;
        while k < pat.len()
            invariant
                self.ok(),
                count == self.chars@.len(),
                k <= pat@.len(),
                pat@.len() <= self.rest().len(),
                forall|j: int| 0 <= j < k ==> self.rest()[j] == pat@[j],
            decreases pat@.len() - k,
        {
            if self.chars[self.i + k] != pat[k] {
                assert(self.rest().subrange(0, pat@.len() as int)[k as int] != pat@[k as int]);
                return false;
            }
            k += 1;
        }
        assert(self.rest().subrange(0, pat@.len() as int) =~= pat@);
        true
    }

    /// Moves on by `count` characters.
    fn advance(&mut self, count: usize)
        requires
            old(self).ok(),
            count <= old(self).rest().len(),
        ensures
            final(self).follows(*old(self)),
            final(self).i == old(self).i + count,
            final(self).rest() == old(self).rest().skip(count as int),
    {
        let mut k: usize = 0;
        let ghost before = *self;
        assert(before.rest().skip(0) =~= before.rest());
        while k < count
            invariant
                self.follows(before),
                before.ok(),
                count <= before.rest().len(),
                k <= count,
                self.i == before.i + k,
                self.rest() == before.rest().skip(k as int),
            decreases count - k,
        {
            self.bump();
            k += 1;
            assert(self.rest() =~= before.rest().skip(k as int));
        }
    }

    /// The text from an earlier place up to here.
    fn since(&self, from: usize, from_at: usize) -> (r: &'a str)
        requires
            self.ok(),
            from <= self.i,
            from_at == utf8::encode_utf8(self.src@.take(from as int)).len(),
        ensures
            r@ == self.src@.subrange(from as int, self.i as int),
    {
        let ghost all = self.src@;
        let ghost head = all.take(self.i as int);
        let ghost first = all.take(from as int);
        let ghost second = all.subrange(from as int, self.i as int);
        proof {
            assert(head + all.skip(self.i as int) =~= all);
            text::lemma_char_boundary(head, all.skip(self.i as int));
            text::lemma_encode_concat(head, all.skip(self.i as int));
            assert(first + second =~= head);
            text::lemma_char_boundary(first, second);
            text::lemma_encode_concat(first, second);
        }
        let (a, _) = self.src.split_at(self.at);
        proof {
            assert(a.spec_bytes() =~= utf8::encode_utf8(head));
            text::lemma_encode_injective(a@, head);
        }
        let (_, b) = a.split_at(from_at);
        proof {
            assert(b.spec_bytes() =~= utf8::encode_utf8(second));
            text::lemma_encode_injective(b@, second);
        }
        b
    }

    fn skip_ws(&mut self)
        requires
            old(self).ok(),
        ensures
            final(self).follows(*old(self)),
            final(self).rest() == skip_space(old(self).rest()),
    {
        let ghost before = *self;
        loop
            invariant
                before == *old(self),
                self.follows(before),
                skip_space(self.rest()) == skip_space(before.rest()),
            decreases self.rest().len(),
        {
            proof {
                lemma_skip_space(self.rest());
            }
            match self.peek() {
                Some(c) => if c == ' ' || c == '\t' || c == '\r' || c == '\n' {
                    self.bump();
                } else {
                    return;
                },
                None => return,
            }
        }
    }

    /// Skips whitespace, comments, the XML declaration and a `DOCTYPE` declaration.
    fn skip_prolog(&mut self) -> (r: Result<(), Error>)
        requires
            old(self).ok(),
        ensures
            match r {
                Ok(_) => final(self).follows(*old(self)) && skip_prolog(old(self).rest()) == Ok::<
                    Seq<char>,
                    Error,
                >(final(self).rest()),
                Err(e) => skip_prolog(old(self).rest()) == Err::<Seq<char>, Error>(e),
            },
    {
        let ghost before = *self;
        loop
            invariant
                self.follows(before),
                before == *old(self),
                skip_prolog(self.rest()) == skip_prolog(before.rest()),
            decreases self.rest().len(),
        {
            proof {
                reveal(skip_prolog);
                lemma_skip_space(self.rest());
            }
            self.skip_ws();
            let declaration: [char; 2] = ['<', '?'];
            let declaration_end: [char; 2] = ['?', '>'];
            let comment: [char; 4] = ['<', '!', '-', '-'];
            let comment_end: [char; 3] = ['-', '-', '>'];
            let doctype: [char; 2] = ['<', '!'];
            let doctype_end: [char; 1] = ['>'];
            proof {
                assert(declaration@ =~= seq!['<', '?']);
                assert(declaration_end@ =~= seq!['?', '>']);
                assert(comment@ =~= seq!['<', '!', '-', '-']);
                assert(comment_end@ =~= seq!['-', '-', '>']);
                assert(doctype@ =~= seq!['<', '!']);
                assert(doctype_end@ =~= seq!['>']);
            }
            if self.starts_with(declaration.as_slice()) {
                self.read_upto(declaration_end.as_slice())?;
            } else if self.starts_with(comment.as_slice()) {
                self.read_upto(comment_end.as_slice())?;
            } else if self.starts_with(doctype.as_slice()) {
                self.read_upto(doctype_end.as_slice())?;
            } else {
                return Ok(());
            }
        }
    }

    /// Moves past the next `pat`, returning the text before it.
    fn read_upto(&mut self, pat: &[char]) -> (r: Result<&'a str, Error>)
        requires
            old(self).ok(),
            pat@.len() > 0,
        ensures
            match r {
                Ok(t) => {
                    &&& final(self).follows(*old(self))
                    &&& final(self).i > old(self).i
                    &&& upto(old(self).rest(), pat@) == Some((t@, final(self).rest()))
                },
                Err(e) => upto(old(self).rest(), pat@) is None && e == xml_error(
                    "unterminated declaration or comment",
                ),
            },
    {
        let ghost before = *self;
        let from: usize = self.i;
        let from_at: usize = self.at;
        loop
            invariant
                before == *old(self),
                before.ok(),
                pat@.len() > 0,
                from == before.i,
                from_at == before.at,
                self.follows(before),
                match text::find(self.rest(), pat@) {
                    Some(k) => text::find(before.rest(), pat@) == Some(k + self.i - before.i),
                    None => text::find(before.rest(), pat@) is None,
                },
            decreases self.rest().len(),
        {
            if self.starts_with(pat) {
                let t = self.since(from, from_at);
                let ghost here = *self;
                self.advance(pat.len());
                proof {
                    let k = here.i - before.i;
                    assert(t@ =~= before.rest().take(k));
                    assert(self.rest() =~= before.rest().skip(k + pat@.len()));
                }
                return Ok(t);
            }
            if self.i == self.chars.len() {
                return Err(Error::Xml { reason: "unterminated declaration or comment" });
            }
            self.bump();
        }
    }

    fn expect(&mut self, c: char, reason: &'static str) -> (r: Result<(), Error>)
        requires
            old(self).ok(),
        ensures
            match r {
                Ok(_) => {
                    &&& old(self).rest().len() > 0
                    &&& old(self).rest()[0] == c
                    &&& final(self).follows(*old(self))
                    &&& final(self).i == old(self).i + 1
                    &&& final(self).rest() == old(self).rest().drop_first()
                },
                Err(e) => (old(self).rest().len() == 0 || old(self).rest()[0] != c) && e
                    == xml_error(reason),
            },
    {
        match self.peek() {
            Some(found) => if found == c {
                self.bump();
                Ok(())
            } else {
                Err(Error::Xml { reason })
            },
            None => Err(Error::Xml { reason }),
        }
    }

    fn read_name(&mut self) -> (r: Result<&'a str, Error>)
        requires
            old(self).ok(),
        ensures
            match r {
                Ok(n) => {
                    &&& final(self).follows(*old(self))
                    &&& final(self).i > old(self).i
                    &&& name(old(self).rest()) == Ok::<(Seq<char>, Seq<char>), Error>(
                        (n@, final(self).rest()),
                    )
                },
                Err(e) => name(old(self).rest()) == Err::<(Seq<char>, Seq<char>), Error>(e),
            },
    {
        let ghost before = *self;
        let ghost stop = |c: char| ends_name(c);
        let from: usize = self.i;
        let from_at: usize = self.at;
        loop
            invariant
                before == *old(self),
                self.follows(before),
                stop == (|c: char| ends_name(c)),
                forall|j: int| 0 <= j < self.i - before.i ==> !stop(#[trigger] before.rest()[j]),
            ensures
                self.follows(before),
                forall|j: int| 0 <= j < self.i - before.i ==> !stop(#[trigger] before.rest()[j]),
                self.rest().len() > 0 ==> stop(self.rest()[0]),
            decreases self.rest().len(),
        {
            match self.peek() {
                Some(c) => {
                    if c == ' ' || c == '\t' || c == '\r' || c == '\n' || c == '/' || c == '>' || c
                        == '=' || c == '<' {
                        break;
                    }
                    assert(before.rest()[self.i - before.i] == c);
                    self.bump();
                },
                None => {
                    break;
                },
            }
        }
        let ghost k = self.i - before.i;
        proof {
            assert(k < before.rest().len() ==> before.rest()[k] == self.rest()[0]);
            text::lemma_until_is(before.rest(), stop, k);
        }
        if from == self.i {
            return Err(Error::Xml { reason: "expected an element or attribute name" });
        }
        let n = self.since(from, from_at);
        proof {
            assert(n@ =~= before.rest().take(k));
            assert(self.rest() =~= before.rest().skip(k));
        }
        Ok(n)
    }

    fn read_attr_value(&mut self) -> (r: Result<Cow<'a, str>, Error>)
        requires
            old(self).ok(),
        ensures
            match r {
                Ok(v) => {
                    &&& final(self).follows(*old(self))
                    &&& final(self).i > old(self).i
                    &&& quoted(old(self).rest()) == Ok::<(Seq<char>, Seq<char>), Error>(
                        (v@, final(self).rest()),
                    )
                    &&& v is Borrowed <==> !raw_value(old(self).rest()).contains('&')
                },
                Err(e) => quoted(old(self).rest()) == Err::<(Seq<char>, Seq<char>), Error>(e),
            },
    {
        let quote = match self.peek() {
            Some(q) => if q == '"' || q == '\'' {
                q
            } else {
                return Err(Error::Xml { reason: "attribute value must be quoted" });
            },
            None => return Err(Error::Xml { reason: "attribute value must be quoted" }),
        };
        self.bump();
        let ghost opened = *self;
        let ghost stop = text::just(quote);
        let from: usize = self.i;
        let from_at: usize = self.at;
        loop
            invariant
                opened.ok(),
                old(self).ok(),
                opened.follows(*old(self)),
                opened.i == old(self).i + 1,
                old(self).rest().len() > 0,
                quote == old(self).rest()[0],
                quote == '"' || quote == '\'',
                opened.rest() == old(self).rest().drop_first(),
                from == opened.i,
                from_at == opened.at,
                self.follows(opened),
                stop == (text::just(quote)),
                forall|j: int| 0 <= j < self.i - opened.i ==> !stop(#[trigger] opened.rest()[j]),
            decreases self.rest().len(),
        {
            let ghost k = self.i - opened.i;
            match self.peek() {
                Some(c) => {
                    assert(opened.rest()[k] == c);
                    if c == quote {
                        let raw = self.since(from, from_at);
                        self.bump();
                        proof {
                            text::lemma_until_is(opened.rest(), stop, k);
                            assert(raw@ =~= opened.rest().take(k));
                            assert(self.rest() =~= opened.rest().skip(k + 1));
                        }
                        return decode_entities(raw);
                    }
                    self.bump();
                },
                None => {
                    proof {
                        text::lemma_until_is(opened.rest(), stop, k);
                    }
                    return Err(Error::Xml { reason: "unterminated attribute value" });
                },
            }
        }
    }

    fn parse_element(&mut self, depth: usize) -> (r: Result<Element<'a>, Error>)
        requires
            old(self).ok(),
            depth <= MAX_DEPTH + 1,
        ensures
            match r {
                Ok(e) => {
                    &&& final(self).follows(*old(self))
                    &&& final(self).i > old(self).i
                    &&& element(old(self).rest(), depth as nat) == Ok::<
                        (ElementView, Seq<char>),
                        Error,
                    >((e@, final(self).rest()))
                    &&& e.borrows(old(self).rest(), depth as nat)
                },
                Err(e) => element(old(self).rest(), depth as nat) == Err::<
                    (ElementView, Seq<char>),
                    Error,
                >(e),
            },
        decreases MAX_DEPTH + 2 - depth, 1int,
    {
        proof {
            reveal(element);
            reveal(content);
        }
        if depth > MAX_DEPTH {
            return Err(Error::Xml { reason: "element nesting too deep" });
        }
        self.expect('<', "expected an element")?;
        let name = self.read_name()?;
        let mut element = Element {
            name,
            attrs: Vec::new(),
            children: Vec::new(),
            text: String::new(),
        };
        let ghost named = *self;
        let ghost mut raws: Seq<Seq<char>> = Seq::empty();
        assert(element@.attrs =~= Seq::empty());
        loop
            invariant_except_break
                raw_values(named.rest(), Seq::empty()) == raw_values(self.rest(), raws),
                values_borrow(element.attrs@, raws),
                old(self).ok(),
                named.follows(*old(self)),
                named.i > old(self).i,
                self.follows(named),
                depth <= MAX_DEPTH,
                element.name@ == name@,
                element.children@.len() == 0,
                element.text@.len() == 0,
                tag(named.rest(), Seq::empty()) == tag(self.rest(), element@.attrs),
                element_start(old(self).rest(), depth as nat, name@, named.rest()),
            ensures
                values_borrow(element.attrs@, raw_values(named.rest(), Seq::empty())),
                self.follows(named),
                element.name@ == name@,
                element.children@.len() == 0,
                element.text@.len() == 0,
                tag(named.rest(), Seq::empty()) == Ok::<TagView, Error>(
                    TagView { attrs: element@.attrs, closed: false, rest: self.rest() },
                ),
            decreases self.rest().len(),
        {
            let ghost here = *self;
            proof {
                lemma_skip_space(self.rest());
                reveal(crate::xml::element);
                reveal(tag);
                reveal(raw_values);
            }
            self.skip_ws();
            match self.peek() {
                Some(c) => {
                    if c == '/' {
                        self.bump();
                        self.expect('>', "expected '>' closing an empty element")?;
                        proof {
                            assert(self.rest() =~= skip_space(here.rest()).skip(2));
                            assert(element@ =~= ElementView::leaf(name@, element@.attrs));
                        }
                        return Ok(element);
                    }
                    if c == '>' {
                        self.bump();
                        assert(self.rest() =~= skip_space(here.rest()).skip(1));
                        break;
                    }
                    let ghost attrs = element@.attrs;
                    let ghost spaced = self.rest();
                    let key = self.read_name()?;
                    self.skip_ws();
                    self.expect('=', "expected '=' after an attribute name")?;
                    self.skip_ws();
                    let value = self.read_attr_value()?;
                    element.attrs.push((key, value));
                    assert(element@.attrs =~= attrs.push((key@, value@)));
                    proof {
                        raws = raws.push(raw_attribute(spaced));
                    }
                },
                None => {
                    return Err(Error::Xml { reason: "unterminated start tag" });
                },
            }
        }
        assert(element@ =~= ElementView::leaf(name@, element@.attrs));
        self.parse_content(&mut element, depth)?;
        Ok(element)
    }

    #[verifier::rlimit(80)]
    #[verifier::spinoff_prover]
    fn parse_content(&mut self, element: &mut Element<'a>, depth: usize) -> (r: Result<(), Error>)
        requires
            old(self).ok(),
            depth <= MAX_DEPTH,
            old(element).children@.len() == 0,
        ensures
            match r {
                Ok(_) => {
                    &&& final(self).follows(*old(self))
                    &&& final(element).attrs@ == old(element).attrs@
                    &&& all_borrow(
                        final(element).children@,
                        children_at(old(self).rest(), depth as nat, Seq::empty()),
                        depth as nat + 1,
                    )
                    &&& content(old(element)@, old(self).rest(), depth as nat) == Ok::<
                        (ElementView, Seq<char>),
                        Error,
                    >((final(element)@, final(self).rest()))
                },
                Err(e) => content(old(element)@, old(self).rest(), depth as nat) == Err::<
                    (ElementView, Seq<char>),
                    Error,
                >(e),
            },
        decreases MAX_DEPTH + 2 - depth, 0int,
    {
        let ghost before = *self;
        let ghost mut starts: Seq<Seq<char>> = Seq::empty();
        loop
            invariant
                before == *old(self),
                self.follows(before),
                depth <= MAX_DEPTH,
                element.attrs@ == old(element).attrs@,
                all_borrow(element.children@, starts, depth as nat + 1),
                children_at(before.rest(), depth as nat, Seq::empty()) == children_at(
                    self.rest(),
                    depth as nat,
                    starts,
                ),
                content(old(element)@, before.rest(), depth as nat) == content(
                    element@,
                    self.rest(),
                    depth as nat,
                ),
            decreases self.rest().len(),
        {
            let ghost here = *self;
            let ghost model = element@;
            proof {
                reveal(content);
                reveal(children_at);
            }
            if self.starts_with(&['<', '/']) {
                self.advance(2);
                let closing = self.read_name()?;
                self.skip_ws();
                self.expect('>', "expected '>' closing an end tag")?;
                if !same_text(closing, element.name) {
                    return Err(Error::Xml { reason: "end tag does not match its start tag" });
                }
                return Ok(());
            }
            if self.starts_with(&['<', '!', '-', '-']) {
                self.read_upto(&['-', '-', '>'])?;
                continue;
            }
            if self.starts_with(&['<', '!', '[', 'C', 'D', 'A', 'T', 'A', '[']) {
                self.advance(9);
                let literal = self.read_upto(&[']', ']', '>'])?;
                element.text.push_str(literal);
                assert(element@ =~= ElementView { text: model.text + literal@, ..model });
                continue;
            }
            match self.peek() {
                Some(c) => {
                    if c == '<' {
                        let child = self.parse_element(depth + 1)?;
                        let ghost children = element.children@;
                        element.children.push(child);
                        proof {
                            lemma_element_views_push(children, child);
                            lemma_all_borrow_push(
                                children,
                                starts,
                                depth as nat + 1,
                                child,
                                here.rest(),
                            );
                            starts = starts.push(here.rest());
                            assert(element@ =~= ElementView {
                                children: model.children.push(child@),
                                ..model
                            });
                        }
                    } else {
                        let raw = self.read_text();
                        match decode_entities(raw) {
                            Ok(more) => {
                                element.text.push_str(cow_text(&more));
                                assert(element@ =~= ElementView {
                                    text: model.text + more@,
                                    ..model
                                });
                            },
                            Err(e) => {
                                return Err(e);
                            },
                        }
                    }
                },
                None => {
                    return Err(Error::Xml { reason: "unterminated element content" });
                },
            }
        }
    }

    /// The text up to the next tag.
    fn read_text(&mut self) -> (r: &'a str)
        requires
            old(self).ok(),
            old(self).rest().len() > 0,
            old(self).rest()[0] != '<',
        ensures
            final(self).follows(*old(self)),
            final(self).i > old(self).i,
            r@ == old(self).rest().take(text::until(old(self).rest(), text::just('<'))),
            final(self).rest() == old(self).rest().skip(
                text::until(old(self).rest(), text::just('<')),
            ),
    {
        let ghost before = *self;
        let ghost stop = text::just('<');
        let from: usize = self.i;
        let from_at: usize = self.at;
        loop
            invariant
                before == *old(self),
                before.rest().len() > 0,
                before.rest()[0] != '<',
                self.follows(before),
                stop == (text::just('<')),
                forall|j: int| 0 <= j < self.i - before.i ==> !stop(#[trigger] before.rest()[j]),
            ensures
                self.follows(before),
                forall|j: int| 0 <= j < self.i - before.i ==> !stop(#[trigger] before.rest()[j]),
                self.rest().len() > 0 ==> stop(self.rest()[0]),
            decreases self.rest().len(),
        {
            match self.peek() {
                Some(c) => {
                    if c == '<' {
                        break;
                    }
                    assert(before.rest()[self.i - before.i] == c);
                    self.bump();
                },
                None => {
                    break;
                },
            }
        }
        let ghost k = self.i - before.i;
        proof {
            assert(k < before.rest().len() ==> before.rest()[k] == self.rest()[0]);
            text::lemma_until_is(before.rest(), stop, k);
        }
        let raw = self.since(from, from_at);
        proof {
            assert(raw@ =~= before.rest().take(k));
            assert(self.rest() =~= before.rest().skip(k));
        }
        raw
    }
}

/// Whether an element of that name starts at `s`, and its tag goes on at `tail`.
spec fn element_start(s: Seq<char>, depth: nat, element_name: Seq<char>, tail: Seq<char>) -> bool {
    &&& depth <= MAX_DEPTH
    &&& s.len() > 0
    &&& s[0] == '<'
    &&& name(s.drop_first()) == Ok::<(Seq<char>, Seq<char>), Error>((element_name, tail))
}

/// Expands the predefined entities and numeric character references.
///
/// What [`escape`] wrote is read back as it was. Text without a `&` is borrowed, and holds itself.
///
/// # Errors
///
/// Returns [`Error::Xml`] when a reference is not one of these, or does not end.
pub fn decode_entities<'a>(raw: &'a str) -> (r: Result<Cow<'a, str>, Error>)
    ensures
        expanded(raw@) == (match r {
            Ok(v) => Ok::<Seq<char>, Error>(v@),
            Err(e) => Err::<Seq<char>, Error>(e),
        }),
        !raw@.contains('&') ==> (r matches Ok(v) && v is Borrowed && v@ == raw@),
        raw@.contains('&') ==> (r matches Ok(v) ==> v is Owned),
        forall|value: Seq<char>|
            raw@ == #[trigger] escaped(value) ==> (r matches Ok(v) && v@ == value),
{
    proof {
        reveal(expanded);
        assert forall|value: Seq<char>| raw@ == #[trigger] escaped(value) implies expanded(raw@)
            == Ok::<Seq<char>, Error>(value) by {
            law_escape_is_undone(value);
        }
        text::lemma_until(raw@, text::just('&'));
        let at = text::until(raw@, text::just('&'));
        if at < raw@.len() {
            assert(raw@[at] == '&');
        }
    }
    let chars = text::chars_of(raw);
    let ghost amp = text::just('&');
    let first: usize = scan(&chars, 0, '&');
    assert(raw@.skip(0) =~= raw@);
    if first == chars.len() {
        return Ok(Cow::Borrowed(raw));
    }
    let mut out = String::new();
    let mut i: usize = 0;
    loop
        invariant
            chars@ == raw@,
            i <= chars@.len(),
            amp == (text::just('&')),
            raw@.contains('&'),
            forall|value: Seq<char>|
                raw@ == #[trigger] escaped(value) ==> expanded(raw@) == Ok::<Seq<char>, Error>(
                    value,
                ),
            text::until(raw@, amp) < raw@.len(),
            expanded(raw@) == (match expanded(raw@.skip(i as int)) {
                Ok(rest) => Ok::<Seq<char>, Error>(out@ + rest),
                Err(e) => Err::<Seq<char>, Error>(e),
            }),
        decreases chars@.len() - i,
    {
        proof {
            reveal(expanded);
        }
        let ghost rest = raw@.skip(i as int);
        let ghost done = out@;
        let at: usize = scan(&chars, i, '&');
        push_chars(&mut out, &chars, i, at);
        proof {
            assert(raw@.subrange(i as int, at as int) =~= rest.take(at - i));
        }
        if at == chars.len() {
            proof {
                assert(rest.take(at - i) =~= rest);
            }
            return Ok(Cow::Owned(out));
        }
        let ghost tail = rest.skip(at - i + 1);
        assert(tail =~= raw@.skip(at + 1));
        let end: usize = match entity_end(&chars, at + 1) {
            Some(end) => end,
            None => return Err(Error::Xml { reason: "unterminated entity reference" }),
        };
        let ghost k = end - (at + 1);
        assert(raw@.subrange(at + 1, end as int) =~= tail.take(k));
        let c = decode_entity(&chars, at + 1, end)?;
        out.push(c);
        proof {
            assert(tail.skip(k + 1) =~= raw@.skip(end + 1));
            if let Ok(more) = expanded(raw@.skip(end + 1)) {
                assert(out@ + more =~= done + (rest.take(at - i).push(c) + more));
            }
        }
        i = end + 1;
    }
}

/// The place of the first `wanted` from `from` on, or the end.
fn scan(chars: &Vec<char>, from: usize, wanted: char) -> (r: usize)
    requires
        from <= chars@.len(),
    ensures
        from <= r <= chars@.len(),
        r - from == text::until(chars@.skip(from as int), text::just(wanted)),
        r < chars@.len() ==> chars@[r as int] == wanted,
{
    let ghost stop = text::just(wanted);
    let ghost s = chars@.skip(from as int);
    let mut i: usize = from;
    while i < chars.len()
        invariant
            from <= i <= chars@.len(),
            s == chars@.skip(from as int),
            stop == (text::just(wanted)),
            forall|j: int| 0 <= j < i - from ==> !stop(#[trigger] s[j]),
        decreases chars@.len() - i,
    {
        if chars[i] == wanted {
            proof {
                text::lemma_until_is(s, stop, i - from);
            }
            return i;
        }
        i += 1;
    }
    proof {
        text::lemma_until_is(s, stop, i - from);
    }
    i
}

/// Appends a stretch of characters.
fn push_chars(out: &mut String, chars: &Vec<char>, from: usize, to: usize)
    requires
        from <= to <= chars@.len(),
    ensures
        final(out)@ == old(out)@ + chars@.subrange(from as int, to as int),
{
    let ghost before = out@;
    let mut i: usize = from;
    assert(out@ =~= before + chars@.subrange(from as int, i as int));
    while i < to
        invariant
            from <= i <= to <= chars@.len(),
            out@ == before + chars@.subrange(from as int, i as int),
        decreases to - i,
    {
        out.push(chars[i]);
        i += 1;
        assert(out@ =~= before + chars@.subrange(from as int, i as int));
    }
}

/// Where the reference that starts at `from` ends, if it ends soon enough.
fn entity_end(chars: &Vec<char>, from: usize) -> (r: Option<usize>)
    requires
        from <= chars@.len(),
    ensures
        ({
            let tail = chars@.skip(from as int);
            let end = text::until(tail, text::just(';'));
            match r {
                Some(i) => {
                    &&& from <= i < chars@.len()
                    &&& end == i - from
                    &&& end < tail.len()
                    &&& utf8::encode_utf8(tail.take(end)).len() < MAX_ENTITY_LEN
                },
                None => end == tail.len() || utf8::encode_utf8(tail.take(end)).len()
                    >= MAX_ENTITY_LEN,
            }
        }),
{
    let ghost stop = text::just(';');
    let ghost tail = chars@.skip(from as int);
    let mut i: usize = from;
    let mut octets: usize = 0;
    assert(tail.take(0) =~= Seq::<char>::empty());
    while i < chars.len() && octets < MAX_ENTITY_LEN
        invariant
            from <= i <= chars@.len(),
            tail == chars@.skip(from as int),
            stop == (text::just(';')),
            octets < MAX_ENTITY_LEN + 4,
            octets == utf8::encode_utf8(tail.take(i - from)).len(),
            forall|j: int| 0 <= j < i - from ==> !stop(#[trigger] tail[j]),
        decreases chars@.len() - i,
    {
        let c = chars[i];
        if c == ';' {
            proof {
                text::lemma_until_is(tail, stop, i - from);
            }
            return Some(i);
        }
        proof {
            assert(tail.take(i - from + 1) =~= tail.take(i - from).push(c));
            text::lemma_encode_push(tail.take(i - from), c);
        }
        octets += text::char_width(c);
        i += 1;
    }
    proof {
        text::lemma_until(tail, stop);
        let end = text::until(tail, stop);
        assert(end >= i - from) by {
            if end < i - from {
                assert(!stop(tail[end]));
            }
        }
        assert(tail.take(i - from) + tail.subrange(i - from, end) =~= tail.take(end));
        text::lemma_encode_concat(tail.take(i - from), tail.subrange(i - from, end));
    }
    None
}

/// Whether a stretch of characters is the given text.
fn stretch_is(chars: &Vec<char>, from: usize, to: usize, wanted: &[char]) -> (r: bool)
    requires
        from <= to <= chars@.len(),
    ensures
        r == (chars@.subrange(from as int, to as int) == wanted@),
{
    if to - from != wanted.len() {
        return false;
    }
    let mut i: usize = 0;
    while i < wanted.len()
        invariant
            from + wanted@.len() == to <= chars@.len(),
            i <= wanted@.len(),
            forall|j: int| 0 <= j < i ==> chars@[from + j] == wanted@[j],
        decreases wanted@.len() - i,
    {
        if chars[from + i] != wanted[i] {
            assert(chars@.subrange(from as int, to as int)[i as int] != wanted@[i as int]);
            return false;
        }
        i += 1;
    }
    assert(chars@.subrange(from as int, to as int) =~= wanted@);
    true
}

/// The character that the reference in `from..to` names.
fn decode_entity(chars: &Vec<char>, from: usize, to: usize) -> (r: Result<char, Error>)
    requires
        from <= to <= chars@.len(),
    ensures
        r == entity(chars@.subrange(from as int, to as int)),
{
    if stretch_is(chars, from, to, &['a', 'm', 'p']) {
        Ok('&')
    } else if stretch_is(chars, from, to, &['l', 't']) {
        Ok('<')
    } else if stretch_is(chars, from, to, &['g', 't']) {
        Ok('>')
    } else if stretch_is(chars, from, to, &['q', 'u', 'o', 't']) {
        Ok('"')
    } else if stretch_is(chars, from, to, &['a', 'p', 'o', 's']) {
        Ok('\'')
    } else {
        decode_numeric_reference(chars, from, to)
    }
}

fn decode_numeric_reference(chars: &Vec<char>, from: usize, to: usize) -> (r: Result<char, Error>)
    requires
        from <= to <= chars@.len(),
    ensures
        r == numeric_reference(chars@.subrange(from as int, to as int)),
{
    let ghost reference = chars@.subrange(from as int, to as int);
    if from == to || chars[from] != '#' {
        return Err(Error::Xml { reason: "unsupported entity reference" });
    }
    assert(reference.drop_first() =~= chars@.subrange(from + 1, to as int));
    let value = if from + 1 < to && (chars[from + 1] == 'x' || chars[from + 1] == 'X') {
        assert(reference.drop_first().drop_first() =~= chars@.subrange(from + 2, to as int));
        parse_unsigned(chars.as_slice(), from + 2, to, 16)
    } else {
        parse_unsigned(chars.as_slice(), from + 1, to, 10)
    };
    match value {
        Some(n) => match char::from_u32(n) {
            Some(c) => Ok(c),
            None => Err(Error::Xml { reason: "unsupported entity reference" }),
        },
        None => Err(Error::Xml { reason: "unsupported entity reference" }),
    }
}

/// The value of a digit in the given base.
fn digit_of(c: char, radix: u32) -> (r: Option<u32>)
    requires
        radix <= 36,
    ensures
        digit_value(c, radix as nat) == (match r {
            Some(d) => Some(d as nat),
            None => None,
        }),
        r matches Some(d) ==> d < radix,
{
    let u: u32 = c as u32;
    let v: u32 = if '0' <= c && c <= '9' {
        u - 0x30
    } else if 'a' <= c && c <= 'z' {
        u - 0x61 + 10
    } else if 'A' <= c && c <= 'Z' {
        u - 0x41 + 10
    } else {
        radix
    };
    if v < radix {
        Some(v)
    } else {
        None
    }
}

/// A front that is not made of digits, or is already too large, spoils the number.
pub proof fn lemma_digits_value_front(s: Seq<char>, i: int, radix: nat)
    requires
        0 <= i <= s.len(),
        radix >= 1,
    ensures
        digits_value(s.take(i), radix) is None ==> digits_value(s, radix) is None,
        digits_value(s.take(i), radix) matches Some(n) ==> (digits_value(s, radix) matches Some(
            m,
        ) ==> m >= n),
    decreases s.len() - i,
{
    if i < s.len() {
        lemma_digits_value_front(s, i + 1, radix);
        assert(s.take(i + 1).drop_last() =~= s.take(i));
        if let Some(n) = digits_value(s.take(i), radix) {
            assert(n * radix >= n) by (nonlinear_arith)
                requires
                    radix >= 1,
            ;
        }
    } else {
        assert(s.take(i) =~= s);
    }
}

/// The 32 bit number that a stretch of characters writes.
pub(crate) fn parse_unsigned(chars: &[char], from: usize, to: usize, radix: u32) -> (r: Option<u32>)
    requires
        from <= to <= chars@.len(),
        radix == 10 || radix == 16,
    ensures
        unsigned(chars@.subrange(from as int, to as int), radix as nat) == (match r {
            Some(n) => Some(n as nat),
            None => None,
        }),
{
    let ghost all = chars@.subrange(from as int, to as int);
    let start: usize = if from < to && chars[from] == '+' {
        from + 1
    } else {
        from
    };
    let ghost digits = chars@.subrange(start as int, to as int);
    assert(start > from ==> digits =~= all.drop_first());
    if start == to {
        return None;
    }
    let mut value: u64 = 0;
    let mut i: usize = start;
    while i < to
        invariant
            start <= i <= to <= chars@.len(),
            radix == 10 || radix == 16,
            digits == chars@.subrange(start as int, to as int),
            digits.len() > 0,
            all.len() > 0 && all[0] == '+' ==> digits == all.drop_first(),
            !(all.len() > 0 && all[0] == '+') ==> digits == all,
            unsigned(all, radix as nat) == unsigned(
                chars@.subrange(from as int, to as int),
                radix as nat,
            ),
            value <= u32::MAX,
            digits_value(digits.take(i - start), radix as nat) == Some(value as nat),
        decreases to - i,
    {
        let c = chars[i];
        proof {
            assert(digits.take(i - start + 1).drop_last() =~= digits.take(i - start));
            assert(digits.take(i - start + 1).last() == c);
            lemma_digits_value_front(digits, i - start + 1, radix as nat);
        }
        match digit_of(c, radix) {
            Some(d) => {
                let scaled: u64 = if radix == 16 {
                    value * 16
                } else {
                    value * 10
                };
                value = scaled + d as u64;
                if value > u32::MAX as u64 {
                    return None;
                }
            },
            None => return None,
        }
        i += 1;
    }
    assert(digits.take(i - start) =~= digits);
    Some(value as u32)
}

// ---- laws ------------------------------------------------------------------------

/// A character that starts no reference passes through expansion as it is.
proof fn lemma_expanded_plain(c: char, rest: Seq<char>)
    requires
        c != '&',
    ensures
        expanded(seq![c] + rest) == (match expanded(rest) {
            Ok(t) => Ok::<Seq<char>, Error>(seq![c] + t),
            Err(e) => Err::<Seq<char>, Error>(e),
        }),
{
    let raw = seq![c] + rest;
    reveal(expanded);
    assert(raw.drop_first() =~= rest);
    let k = text::until(rest, text::just('&'));
    text::lemma_until(rest, text::just('&'));
    assert(text::until(raw, text::just('&')) == k + 1);
    if k < rest.len() {
        assert(raw.skip(k + 2) =~= rest.skip(k + 1));
        let tail = rest.skip(k + 1);
        let end = text::until(tail, text::just(';'));
        assert(raw.take(k + 1) =~= seq![c] + rest.take(k));
        if let (Ok(x), Ok(t)) = (entity(tail.take(end)), expanded(tail.skip(end + 1))) {
            assert(raw.take(k + 1).push(x) + t =~= seq![c] + (rest.take(k).push(x) + t));
        }
    }
}

/// A reference that names a character expands to it.
proof fn lemma_expanded_reference(reference: Seq<char>, c: char, rest: Seq<char>)
    requires
        entity(reference) == Ok::<char, Error>(c),
        reference.len() < MAX_ENTITY_LEN,
        utf8::is_ascii_chars(reference),
        forall|i: int| 0 <= i < reference.len() ==> reference[i] != ';',
    ensures
        expanded(seq!['&'] + reference + seq![';'] + rest) == (match expanded(rest) {
            Ok(t) => Ok::<Seq<char>, Error>(seq![c] + t),
            Err(e) => Err::<Seq<char>, Error>(e),
        }),
{
    let raw = seq!['&'] + reference + seq![';'] + rest;
    reveal(expanded);
    text::lemma_until_is(raw, text::just('&'), 0);
    let tail = raw.skip(1);
    let end = reference.len() as int;
    assert forall|i: int| 0 <= i < end implies !text::just(';')(#[trigger] tail[i]) by {
        assert(tail[i] == reference[i]);
    }
    assert(tail[end] == ';');
    text::lemma_until_is(tail, text::just(';'), end);
    assert(tail.take(end) =~= reference);
    utf8::is_ascii_chars_encode_utf8(reference);
    assert(tail.skip(end + 1) =~= rest);
    if let Ok(t) = expanded(rest) {
        assert(raw.take(0).push(c) + t =~= seq![c] + t);
    }
}

/// The five predefined entities.
proof fn lemma_entities()
    ensures
        entity(seq!['a', 'm', 'p']) == Ok::<char, Error>('&'),
        entity(seq!['l', 't']) == Ok::<char, Error>('<'),
        entity(seq!['g', 't']) == Ok::<char, Error>('>'),
        entity(seq!['q', 'u', 'o', 't']) == Ok::<char, Error>('"'),
        entity(seq!['a', 'p', 'o', 's']) == Ok::<char, Error>('\''),
{
    let amp = seq!['a', 'm', 'p'];
    let lt = seq!['l', 't'];
    let gt = seq!['g', 't'];
    let quot = seq!['q', 'u', 'o', 't'];
    let apos = seq!['a', 'p', 'o', 's'];
    assert(lt.len() != amp.len());
    assert(gt.len() != amp.len());
    assert(gt[0] != lt[0]);
    assert(quot.len() != amp.len());
    assert(quot.len() != lt.len());
    assert(apos.len() != amp.len());
    assert(apos.len() != lt.len());
    assert(apos[0] != quot[0]);
}

/// The name of the entity that stands for a character that is escaped.
spec fn entity_name(c: char) -> Seq<char> {
    if c == '&' {
        seq!['a', 'm', 'p']
    } else if c == '<' {
        seq!['l', 't']
    } else if c == '>' {
        seq!['g', 't']
    } else if c == '\'' {
        seq!['a', 'p', 'o', 's']
    } else {
        seq!['q', 'u', 'o', 't']
    }
}

/// The entity that stands for an escaped character names it.
proof fn lemma_entity_name(c: char)
    requires
        c == '&' || c == '<' || c == '>' || c == '\'' || c == '"',
    ensures
        entity(entity_name(c)) == Ok::<char, Error>(c),
        entity_name(c).len() < MAX_ENTITY_LEN,
        utf8::is_ascii_chars(entity_name(c)),
        forall|i: int| 0 <= i < entity_name(c).len() ==> entity_name(c)[i] != ';',
        escaped_char(c) == seq!['&'] + entity_name(c) + seq![';'],
{
    lemma_entities();
    assert(escaped_char(c) =~= seq!['&'] + entity_name(c) + seq![';']);
}

/// A character as it is escaped expands to that character.
proof fn lemma_expanded_char(c: char, rest: Seq<char>)
    ensures
        expanded(escaped_char(c) + rest) == (match expanded(rest) {
            Ok(t) => Ok::<Seq<char>, Error>(seq![c] + t),
            Err(e) => Err::<Seq<char>, Error>(e),
        }),
{
    if c == '&' || c == '<' || c == '>' || c == '\'' || c == '"' {
        lemma_entity_name(c);
        lemma_expanded_reference(entity_name(c), c, rest);
    } else {
        lemma_expanded_plain(c, rest);
    }
}

/// What is escaped expands to what it was, whatever the text.
pub proof fn law_escape_is_undone(value: Seq<char>)
    ensures
        expanded(escaped(value)) == Ok::<Seq<char>, Error>(value),
    decreases value.len(),
{
    if value.len() == 0 {
        reveal(expanded);
        assert(expanded(escaped(value)) == Ok::<Seq<char>, Error>(escaped(value)));
        assert(escaped(value) =~= value);
    } else {
        law_escape_is_undone(value.drop_first());
        lemma_expanded_char(value[0], escaped(value.drop_first()));
        assert(seq![value[0]] + value.drop_first() =~= value);
    }
}

/// Whether one of the five predefined entities stands in a text at a place.
pub open spec fn entity_stands_at(s: Seq<char>, i: int) -> bool {
    ||| text::stands_at(s, seq!['&', 'a', 'm', 'p', ';'], i)
    ||| text::stands_at(s, seq!['&', 'l', 't', ';'], i)
    ||| text::stands_at(s, seq!['&', 'g', 't', ';'], i)
    ||| text::stands_at(s, seq!['&', 'a', 'p', 'o', 's', ';'], i)
    ||| text::stands_at(s, seq!['&', 'q', 'u', 'o', 't', ';'], i)
}

/// A text without an ampersand expands to itself.
pub proof fn law_plain_text_is_read_as_it_is(raw: Seq<char>)
    requires
        forall|i: int| 0 <= i < raw.len() ==> raw[i] != '&',
    ensures
        expanded(raw) == Ok::<Seq<char>, Error>(raw),
{
    text::lemma_until_is(raw, text::just('&'), raw.len() as int);
    reveal(expanded);
}

/// Every ampersand in what is escaped begins one of the five predefined entities.
pub proof fn law_escaped_ampersands_begin_entities(value: Seq<char>)
    ensures
        forall|i: int|
            0 <= i < escaped(value).len() && #[trigger] escaped(value)[i] == '&'
                ==> entity_stands_at(escaped(value), i),
    decreases value.len(),
{
    if value.len() > 0 {
        law_escaped_ampersands_begin_entities(value.drop_first());
        let first = escaped_char(value[0]);
        let rest = escaped(value.drop_first());
        let all = escaped(value);
        let n = first.len() as int;
        assert(all == first + rest);
        assert forall|i: int| 0 <= i < all.len() && #[trigger] all[i] == '&' implies
            entity_stands_at(all, i) by {
            if i < n {
                assert(first[i] == '&');
                assert(i == 0);
                assert(all.subrange(0, n) =~= first);
                assert(text::stands_at(all, first, 0));
            } else {
                let j = i - n;
                assert(rest[j] == '&');
                assert(entity_stands_at(rest, j));
                lemma_stands_behind(first, rest, seq!['&', 'a', 'm', 'p', ';'], j);
                lemma_stands_behind(first, rest, seq!['&', 'l', 't', ';'], j);
                lemma_stands_behind(first, rest, seq!['&', 'g', 't', ';'], j);
                lemma_stands_behind(first, rest, seq!['&', 'a', 'p', 'o', 's', ';'], j);
                lemma_stands_behind(first, rest, seq!['&', 'q', 'u', 'o', 't', ';'], j);
            }
        }
    }
}

/// What stands in a text stands in it behind another, that much further on.
proof fn lemma_stands_behind(front: Seq<char>, s: Seq<char>, pat: Seq<char>, j: int)
    ensures
        text::stands_at(s, pat, j) ==> text::stands_at(front + s, pat, front.len() + j),
{
    if text::stands_at(s, pat, j) {
        let k = front.len() + j;
        assert((front + s).subrange(k, k + pat.len()) =~= s.subrange(j, j + pat.len()));
    }
}

/// What is escaped holds no markup: neither bracket and neither quote.
pub proof fn law_escaped_text_holds_no_markup(value: Seq<char>)
    ensures
        forall|i: int|
            0 <= i < escaped(value).len() ==> {
                let c = #[trigger] escaped(value)[i];
                c != '<' && c != '>' && c != '\'' && c != '"'
            },
    decreases value.len(),
{
    if value.len() > 0 {
        law_escaped_text_holds_no_markup(value.drop_first());
        let first = escaped_char(value[0]);
        let rest = escaped(value.drop_first());
        assert forall|i: int| 0 <= i < escaped(value).len() implies {
            let c = #[trigger] escaped(value)[i];
            c != '<' && c != '>' && c != '\'' && c != '"'
        } by {
            if i < first.len() {
                assert(escaped(value)[i] == first[i]);
            } else {
                assert(escaped(value)[i] == rest[i - first.len()]);
            }
        }
    }
}

// ---- reading what is rendered ----------------------------------------------------

/// Whether a text can be a name: it is not empty and nothing in it ends a name.
pub open spec fn is_name(n: Seq<char>) -> bool {
    n.len() > 0 && forall|i: int| 0 <= i < n.len() ==> !ends_name(#[trigger] n[i])
}

/// A name is read up to what ends it.
pub proof fn lemma_name(n: Seq<char>, rest: Seq<char>)
    requires
        is_name(n),
        rest.len() > 0 ==> ends_name(rest[0]),
    ensures
        name(n + rest) == Ok::<(Seq<char>, Seq<char>), Error>((n, rest)),
{
    let s = n + rest;
    let k = n.len() as int;
    let stop = |c: char| ends_name(c);
    assert forall|i: int| 0 <= i < k implies !stop(#[trigger] s[i]) by {
        assert(s[i] == n[i]);
    }
    assert(k < s.len() ==> s[k] == rest[0]);
    text::lemma_until_is(s, stop, k);
    assert(s.take(k) =~= n);
    assert(s.skip(k) =~= rest);
}

/// A value that was escaped and quoted reads back.
pub proof fn lemma_quoted(value: Seq<char>, rest: Seq<char>)
    ensures
        quoted(seq!['\''] + escaped(value) + seq!['\''] + rest) == Ok::<
            (Seq<char>, Seq<char>),
            Error,
        >((value, rest)),
{
    let s = seq!['\''] + escaped(value) + seq!['\''] + rest;
    let body = s.drop_first();
    let k = escaped(value).len() as int;
    law_escaped_text_holds_no_markup(value);
    law_escape_is_undone(value);
    assert forall|i: int| 0 <= i < k implies !text::just('\'')(#[trigger] body[i]) by {
        assert(body[i] == escaped(value)[i]);
    }
    assert(body[k] == '\'');
    text::lemma_until_is(body, text::just('\''), k);
    assert(body.take(k) =~= escaped(value));
    assert(body.skip(k + 1) =~= rest);
}

/// An attribute that was rendered reads back.
pub proof fn lemma_tag_attr(
    key: Seq<char>,
    value: Seq<char>,
    rest: Seq<char>,
    attrs: Seq<(Seq<char>, Seq<char>)>,
)
    requires
        is_name(key),
    ensures
        tag(
            seq![' '] + key + seq!['=', '\''] + escaped(value) + seq!['\''] + rest,
            attrs,
        ) == tag(rest, attrs.push((key, value))),
{
    let s = seq![' '] + key + seq!['=', '\''] + escaped(value) + seq!['\''] + rest;
    reveal(tag);
    let q = seq!['\''] + escaped(value) + seq!['\''] + rest;
    let after = seq!['='] + q;
    let t = key + after;
    assert(s.drop_first() =~= t);
    assert(!ends_name(key[0]));
    assert(t[0] == key[0]);
    lemma_skip_space(s);
    lemma_skip_space(t);
    lemma_name(key, after);
    lemma_skip_space(after);
    assert(after.drop_first() =~= q);
    lemma_skip_space(q);
    lemma_quoted(value, rest);
    assert(attribute(t) == Ok::<((Seq<char>, Seq<char>), Seq<char>), Error>(
        ((key, value), rest),
    ));
}

/// A tag that closes itself.
pub proof fn lemma_tag_closed(rest: Seq<char>, attrs: Seq<(Seq<char>, Seq<char>)>)
    ensures
        tag(seq![' ', '/', '>'] + rest, attrs) == Ok::<TagView, Error>(
            TagView { attrs, closed: true, rest },
        ),
{
    let s = seq![' ', '/', '>'] + rest;
    reveal(tag);
    lemma_skip_space(s);
    lemma_skip_space(s.drop_first());
    assert(s.drop_first().skip(2) =~= rest);
}

/// A tag that leaves its element open.
pub proof fn lemma_tag_open(rest: Seq<char>, attrs: Seq<(Seq<char>, Seq<char>)>)
    ensures
        tag(seq!['>'] + rest, attrs) == Ok::<TagView, Error>(
            TagView { attrs, closed: false, rest },
        ),
{
    let s = seq!['>'] + rest;
    reveal(tag);
    lemma_skip_space(s);
    assert(s.skip(1) =~= rest);
}

/// An element is its name, its tag and, where the tag leaves it open, its content.
pub proof fn lemma_element(n: Seq<char>, s1: Seq<char>, depth: nat)
    requires
        is_name(n),
        s1.len() > 0,
        ends_name(s1[0]),
        depth <= MAX_DEPTH,
    ensures
        element(seq!['<'] + n + s1, depth) == (match tag(s1, Seq::empty()) {
            Err(e) => Err::<(ElementView, Seq<char>), Error>(e),
            Ok(t) => if t.closed {
                Ok((ElementView::leaf(n, t.attrs), t.rest))
            } else {
                content(ElementView::leaf(n, t.attrs), t.rest, depth)
            },
        }),
{
    let s = seq!['<'] + n + s1;
    reveal(element);
    reveal(content);
    assert(s.drop_first() =~= n + s1);
    lemma_name(n, s1);
}

/// Plain text in front of a tag is taken up as it is.
pub proof fn lemma_content_plain(e: ElementView, plain: Seq<char>, rest: Seq<char>, depth: nat)
    requires
        plain.len() > 0,
        forall|i: int| 0 <= i < plain.len() ==> #[trigger] plain[i] != '<' && plain[i] != '&',
        rest.len() > 0,
        rest[0] == '<',
        depth <= MAX_DEPTH,
    ensures
        content(e, plain + rest, depth) == content(
            ElementView { text: e.text + plain, ..e },
            rest,
            depth,
        ),
{
    let k = plain.len() as int;
    text::lemma_until_is(plain, text::just('&'), k);
    reveal(expanded);
    assert(expanded(plain) == Ok::<Seq<char>, Error>(plain));
    lemma_content_text(e, plain, plain, rest, depth);
}

/// Text in front of a tag is taken up with its references expanded.
pub proof fn lemma_content_text(
    e: ElementView,
    raw: Seq<char>,
    value: Seq<char>,
    rest: Seq<char>,
    depth: nat,
)
    requires
        raw.len() > 0,
        forall|i: int| 0 <= i < raw.len() ==> #[trigger] raw[i] != '<',
        expanded(raw) == Ok::<Seq<char>, Error>(value),
        rest.len() > 0,
        rest[0] == '<',
        depth <= MAX_DEPTH,
    ensures
        content(e, raw + rest, depth) == content(
            ElementView { text: e.text + value, ..e },
            rest,
            depth,
        ),
{
    let s = raw + rest;
    let k = raw.len() as int;
    reveal(content);
    assert forall|i: int| 0 <= i < k implies !text::just('<')(#[trigger] s[i]) by {
        assert(s[i] == raw[i]);
    }
    assert(s[k] == rest[0]);
    text::lemma_until_is(s, text::just('<'), k);
    assert(s.take(k) =~= raw);
    assert(s.skip(k) =~= rest);
    assert(s[0] == raw[0]);
    lemma_not_begun(s, seq!['<', '/']);
    lemma_not_begun(s, seq!['<', '!', '-', '-']);
    lemma_not_begun(s, cdata_open());
}

/// A text does not begin with a pattern whose first character it does not begin with.
proof fn lemma_not_begun(s: Seq<char>, pat: Seq<char>)
    requires
        s.len() > 0,
        pat.len() > 0,
        s[0] != pat[0],
    ensures
        !text::begins(s, pat),
{
    if text::begins(s, pat) {
        assert(s.subrange(0, pat.len() as int)[0] == pat[0]);
    }
}

/// Where the second character differs, a text does not begin with a pattern either.
proof fn lemma_not_begun_second(s: Seq<char>, pat: Seq<char>)
    requires
        s.len() > 1,
        pat.len() > 1,
        s[1] != pat[1],
    ensures
        !text::begins(s, pat),
{
    if text::begins(s, pat) {
        assert(s.subrange(0, pat.len() as int)[1] == pat[1]);
    }
}

/// An end tag ends the content.
pub proof fn lemma_content_end(e: ElementView, rest: Seq<char>, depth: nat)
    requires
        is_name(e.name),
        depth <= MAX_DEPTH,
    ensures
        content(e, seq!['<', '/'] + e.name + seq!['>'] + rest, depth) == Ok::<
            (ElementView, Seq<char>),
            Error,
        >((e, rest)),
{
    let s = seq!['<', '/'] + e.name + seq!['>'] + rest;
    reveal(content);
    let after = seq!['>'] + rest;
    assert(s.subrange(0, 2) =~= seq!['<', '/']);
    assert(s.skip(2) =~= e.name + after);
    lemma_name(e.name, after);
    lemma_skip_space(after);
    assert(after.drop_first() =~= rest);
}

/// A child element is taken up.
pub proof fn lemma_content_child(
    e: ElementView,
    s: Seq<char>,
    child: ElementView,
    rest: Seq<char>,
    depth: nat,
)
    requires
        depth <= MAX_DEPTH,
        s.len() > 1,
        s[0] == '<',
        s[1] != '/',
        s[1] != '!',
        rest.len() < s.len(),
        element(s, depth + 1) == Ok::<(ElementView, Seq<char>), Error>((child, rest)),
    ensures
        content(e, s, depth) == content(
            ElementView { children: e.children.push(child), ..e },
            rest,
            depth,
        ),
{
    reveal(content);
    reveal(element);
    lemma_not_begun_second(s, seq!['<', '/']);
    lemma_not_begun_second(s, seq!['<', '!', '-', '-']);
    lemma_not_begun_second(s, cdata_open());
}

/// Whether a text can stand in a `CDATA` section: it does not close it.
pub open spec fn fits_cdata(literal: Seq<char>) -> bool {
    text::find(literal, cdata_close()) is None
}

/// What fits a `CDATA` section is read up to the end of the section.
proof fn lemma_upto_cdata_close(literal: Seq<char>, rest: Seq<char>)
    requires
        fits_cdata(literal),
    ensures
        upto(literal + cdata_close() + rest, cdata_close()) == Some((literal, rest)),
{
    let body = literal + cdata_close() + rest;
    let k = literal.len() as int;
    text::lemma_find(literal, cdata_close());
    assert(body.subrange(k, k + 3) =~= cdata_close());
    assert forall|j: int| 0 <= j < k implies !(#[trigger] text::stands_at(
        body,
        cdata_close(),
        j,
    )) by {
        if text::stands_at(body, cdata_close(), j) {
            let found = body.subrange(j, j + 3);
            assert(found[2] == '>');
            assert(body[j + 2] == '>');
            if j + 3 <= k {
                assert(literal.subrange(j, j + 3) =~= found);
                assert(text::stands_at(literal, cdata_close(), j));
            } else {
                assert(body[j + 2] == cdata_close()[j + 2 - k]);
            }
        }
    }
    text::lemma_find_is(body, cdata_close(), k);
    assert(body.take(k) =~= literal);
    assert(body.skip(k + 3) =~= rest);
}

/// A `CDATA` section is taken up as it is.
pub proof fn lemma_content_cdata(e: ElementView, literal: Seq<char>, rest: Seq<char>, depth: nat)
    requires
        fits_cdata(literal),
        depth <= MAX_DEPTH,
    ensures
        content(e, cdata_open() + literal + cdata_close() + rest, depth) == content(
            ElementView { text: e.text + literal, ..e },
            rest,
            depth,
        ),
{
    let s = cdata_open() + literal + cdata_close() + rest;
    reveal(content);
    assert(text::begins(s, cdata_open())) by {
        assert(s.subrange(0, 9) =~= cdata_open());
    }
    assert(!text::begins(s, seq!['<', '/'])) by {
        lemma_not_begun_second(s, seq!['<', '/']);
    }
    assert(!text::begins(s, seq!['<', '!', '-', '-'])) by {
        if text::begins(s, seq!['<', '!', '-', '-']) {
            assert(s.subrange(0, 4)[2] == '-');
            assert(s[2] == '[');
        }
    }
    assert(s.skip(9) =~= literal + cdata_close() + rest);
    lemma_upto_cdata_close(literal, rest);
}

/// A text that is divided over `CDATA` sections is taken up as it is.
pub proof fn lemma_content_sections(
    e: ElementView,
    literal: Seq<char>,
    rest: Seq<char>,
    depth: nat,
)
    requires
        depth <= MAX_DEPTH,
    ensures
        content(e, cdata_open() + sectioned(literal) + cdata_close() + rest, depth) == content(
            ElementView { text: e.text + literal, ..e },
            rest,
            depth,
        ),
    decreases literal.len(),
{
    text::lemma_find(literal, cdata_close());
    match text::find(literal, cdata_close()) {
        None => lemma_content_cdata(e, literal, rest, depth),
        Some(k) => {
            let first = literal.take(k + 2);
            let tail = literal.skip(k + 2);
            let more = cdata_open() + sectioned(tail) + cdata_close() + rest;
            assert(cdata_open() + sectioned(literal) + cdata_close() + rest =~= cdata_open()
                + first + cdata_close() + more);
            assert(fits_cdata(first)) by {
                assert forall|j: int| !(#[trigger] text::stands_at(first, cdata_close(), j)) by {
                    if text::stands_at(first, cdata_close(), j) {
                        assert(literal.subrange(j, j + 3) =~= first.subrange(j, j + 3));
                        assert(text::stands_at(literal, cdata_close(), j));
                    }
                }
                text::lemma_find_none(first, cdata_close());
            }
            lemma_content_cdata(e, first, more, depth);
            let next = ElementView { text: e.text + first, ..e };
            lemma_content_sections(next, tail, rest, depth);
            assert(e.text + first + tail =~= e.text + literal);
        },
    }
}

/// A document that starts with an element has no prolog.
pub proof fn lemma_no_prolog(s: Seq<char>)
    requires
        s.len() > 1,
        s[0] == '<',
        s[1] != '?',
        s[1] != '!',
    ensures
        skip_prolog(s) == Ok::<Seq<char>, Error>(s),
{
    reveal(skip_prolog);
    lemma_skip_space(s);
    lemma_not_begun_second(s, seq!['<', '?']);
    lemma_not_begun_second(s, seq!['<', '!', '-', '-']);
    lemma_not_begun_second(s, seq!['<', '!']);
}

/// White space alone is an empty prolog.
pub proof fn lemma_blank_prolog(s: Seq<char>)
    requires
        skip_space(s).len() == 0,
    ensures
        skip_prolog(s) == Ok::<Seq<char>, Error>(Seq::empty()),
{
    reveal(skip_prolog);
    let t = skip_space(s);
    assert(t =~= Seq::<char>::empty());
}

/// A line end is white space alone, and so is nothing.
pub proof fn lemma_line_end_is_blank()
    ensures
        skip_space(seq!['\r', '\n']).len() == 0,
        skip_space(Seq::empty()).len() == 0,
{
    let s = seq!['\r', '\n'];
    lemma_skip_space(s);
    lemma_skip_space(s.drop_first());
    lemma_skip_space(s.drop_first().drop_first());
}

/// A document of one element, with nothing but a line end behind it, is that element.
pub proof fn lemma_document(s: Seq<char>, root: ElementView, rest: Seq<char>)
    requires
        s.len() > 1,
        s[0] == '<',
        s[1] != '?',
        s[1] != '!',
        element(s, 0) == Ok::<(ElementView, Seq<char>), Error>((root, rest)),
        skip_space(rest).len() == 0,
    ensures
        document(s) == Ok::<ElementView, Error>(root),
        parsed(utf8::encode_utf8(s)) == Ok::<ElementView, Error>(root),
{
    lemma_no_prolog(s);
    lemma_blank_prolog(rest);
    utf8::encode_utf8_valid_utf8(s);
    utf8::encode_utf8_decode_utf8(s);
}

} // verus!
