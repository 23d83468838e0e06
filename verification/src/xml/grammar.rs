//! The grammar that documents are read by, production by production.

use crate::error::Error;
use crate::text;
use crate::xml;
use crate::xml::{ElementView, TagView};
use vstd::prelude::*;
use vstd::utf8;

verus! {

/// The digits of the bases up to sixteen, each at the place of its value.
pub open spec fn small_digits() -> Seq<char> {
    "0123456789abcdef"@
}

/// The same digits, with large letters.
pub open spec fn large_digits() -> Seq<char> {
    "0123456789ABCDEF"@
}

/// White space is the blank, the tabulator, the carriage return and the line feed, and nothing
/// else. A name is ended by white space, a slash, either angle bracket or an equals sign.
pub proof fn law_names_end_at_markup(c: char)
    ensures
        xml::is_space(c) <==> c == ' ' || c == '\t' || c == '\r' || c == '\n',
        xml::ends_name(c) <==> c == ' ' || c == '\t' || c == '\r' || c == '\n' || c == '/' || c
            == '>' || c == '=' || c == '<',
{
}

/// A digit is worth its place among the digits, in either case of its letter, and is one in the
/// bases that are larger than that. Nothing else is a digit.
pub proof fn law_digits_are_worth_their_place(c: char, v: nat)
    ensures
        v < 10 ==> (xml::digit_value(c, 10) == Some(v) <==> c == small_digits()[v as int]),
        v < 16 ==> (xml::digit_value(c, 16) == Some(v) <==> c == small_digits()[v as int] || c
            == large_digits()[v as int]),
        xml::digit_value(c, 10) matches Some(d) ==> d < 10,
        xml::digit_value(c, 16) matches Some(d) ==> d < 16,
{
    reveal_strlit("0123456789abcdef");
    reveal_strlit("0123456789ABCDEF");
    let small = small_digits();
    let large = large_digits();
    assert(forall|i: int| 0 <= i < 10 ==> #[trigger] small[i] == (0x30 + i) as char);
    assert(forall|i: int| 10 <= i < 16 ==> #[trigger] small[i] == (0x61 + i - 10) as char);
    assert(forall|i: int| 0 <= i < 10 ==> #[trigger] large[i] == (0x30 + i) as char);
    assert(forall|i: int| 10 <= i < 16 ==> #[trigger] large[i] == (0x41 + i - 10) as char);
}

/// Digits write a number place by place: one more makes the number as much larger as the base
/// says, and adds its own worth. Where one is no digit, they write none.
pub proof fn law_digits_write_a_number(digits: Seq<char>, c: char, radix: nat)
    ensures
        xml::digits_value(Seq::empty(), radix) == Some(0nat),
        xml::digits_value(digits.push(c), radix) == (match (
            xml::digits_value(digits, radix),
            xml::digit_value(c, radix),
        ) {
            (Some(n), Some(d)) => Some((n * radix + d) as nat),
            _ => None,
        }),
{
    assert(digits.push(c).drop_last() =~= digits);
}

/// A reference by number names the character of that number, written in decimal digits behind
/// `#`, or in hexadecimal ones behind `#x` or `#X`. Numbers that are no character name none.
pub proof fn law_numeric_references_name_their_character(digits: Seq<char>, n: nat)
    requires
        digits.len() > 0,
        digits[0] != 'x' && digits[0] != 'X' && digits[0] != '+',
        n <= u32::MAX,
    ensures
        xml::digits_value(digits, 10) == Some(n) ==> xml::entity(seq!['#'] + digits) == (
        if n <= 0xd7ff || 0xe000 <= n <= 0x10ffff {
            Ok::<char, Error>(n as char)
        } else {
            Err(Error::Xml { reason: "unsupported entity reference" })
        }),
        xml::digits_value(digits, 16) == Some(n) ==> {
            let named = if n <= 0xd7ff || 0xe000 <= n <= 0x10ffff {
                Ok::<char, Error>(n as char)
            } else {
                Err(Error::Xml { reason: "unsupported entity reference" })
            };
            xml::entity(seq!['#', 'x'] + digits) == named && xml::entity(seq!['#', 'X'] + digits)
                == named
        },
{
    let d = seq!['#'] + digits;
    let x = seq!['#', 'x'] + digits;
    let y = seq!['#', 'X'] + digits;
    assert(d[0] == '#' && x[0] == '#' && y[0] == '#');
    assert(seq!['a', 'm', 'p'][0] == 'a' && seq!['l', 't'][0] == 'l' && seq!['g', 't'][0] == 'g'
        && seq!['q', 'u', 'o', 't'][0] == 'q' && seq!['a', 'p', 'o', 's'][0] == 'a');
    assert(d.drop_first() =~= digits);
    assert(x.drop_first().drop_first() =~= digits);
    assert(y.drop_first().drop_first() =~= digits);
    assert(x.drop_first()[0] == 'x' && y.drop_first()[0] == 'X');
}

/// A reference that has a name stands for one of five characters; no other name is one.
pub proof fn law_named_references_are_five(reference: Seq<char>)
    ensures
        reference == "amp"@ ==> xml::entity(reference) == Ok::<char, Error>('&'),
        reference == "lt"@ ==> xml::entity(reference) == Ok::<char, Error>('<'),
        reference == "gt"@ ==> xml::entity(reference) == Ok::<char, Error>('>'),
        reference == "quot"@ ==> xml::entity(reference) == Ok::<char, Error>('"'),
        reference == "apos"@ ==> xml::entity(reference) == Ok::<char, Error>('\''),
        reference != "amp"@ && reference != "lt"@ && reference != "gt"@ && reference != "quot"@
            && reference != "apos"@ && (reference.len() == 0 || reference[0] != '#')
            ==> xml::entity(reference) == Err::<char, Error>(
            Error::Xml { reason: "unsupported entity reference" },
        ),
{
    reveal_strlit("amp");
    reveal_strlit("lt");
    reveal_strlit("gt");
    reveal_strlit("quot");
    reveal_strlit("apos");
    assert("amp"@ =~= seq!['a', 'm', 'p']);
    assert("lt"@ =~= seq!['l', 't']);
    assert("gt"@ =~= seq!['g', 't']);
    assert("quot"@ =~= seq!['q', 'u', 'o', 't']);
    assert("apos"@ =~= seq!['a', 'p', 'o', 's']);
    xml::lemma_entities();
}

/// Text is read character by character, and a reference as the character it names; it has to end
/// within twelve octets. What is wrong with a reference is wrong with the text.
pub proof fn law_references_expand(plain: char, reference: Seq<char>, rest: Seq<char>)
    requires
        forall|i: int| 0 <= i < reference.len() ==> reference[i] != ';',
    ensures
        xml::expanded(Seq::empty()) == Ok::<Seq<char>, Error>(Seq::empty()),
        plain != '&' ==> xml::expanded(seq![plain] + rest) == (match xml::expanded(rest) {
            Ok(t) => Ok::<Seq<char>, Error>(seq![plain] + t),
            Err(e) => Err(e),
        }),
        xml::expanded(seq!['&'] + reference + seq![';'] + rest) == (if utf8::encode_utf8(
            reference,
        ).len() >= 12 {
            Err::<Seq<char>, Error>(Error::Xml { reason: "unterminated entity reference" })
        } else {
            match (xml::entity(reference), xml::expanded(rest)) {
                (Err(e), _) => Err(e),
                (_, Err(e)) => Err(e),
                (Ok(c), Ok(t)) => Ok(seq![c] + t),
            }
        }),
        xml::expanded(seq!['&'] + reference) == Err::<Seq<char>, Error>(
            Error::Xml { reason: "unterminated entity reference" },
        ),
{
    reveal(xml::expanded);
    assert(xml::expanded(Seq::empty()) == Ok::<Seq<char>, Error>(Seq::empty()));
    if plain != '&' {
        xml::lemma_expanded_plain(plain, rest);
    }
    let raw = seq!['&'] + reference + seq![';'] + rest;
    text::lemma_until_is(raw, text::just('&'), 0);
    let tail = raw.skip(1);
    let end = reference.len() as int;
    assert(tail =~= reference + seq![';'] + rest);
    assert forall|j: int| 0 <= j < end implies !(text::just(';'))(#[trigger] tail[j]) by {
        assert(tail[j] == reference[j]);
    }
    assert(tail[end] == ';');
    text::lemma_until_is(tail, text::just(';'), end);
    assert(tail.take(end) =~= reference);
    assert(tail.skip(end + 1) =~= rest);
    assert(raw.take(0) =~= Seq::empty());
    if let Ok(c) = xml::entity(reference) {
        assert(raw.take(0).push(c) =~= seq![c]);
    }
    let open = seq!['&'] + reference;
    text::lemma_until_is(open, text::just('&'), 0);
    assert(open.skip(1) =~= reference);
    text::lemma_until_is(reference, text::just(';'), end);
}

/// An attribute value stands between two quotes of either sort, and holds what stands between
/// them, with references expanded; the quote of the other sort may stand in it. Without a quote,
/// or without a second one, it is refused.
pub proof fn law_values_stand_between_quotes(quote: char, raw: Seq<char>, rest: Seq<char>)
    requires
        quote == '"' || quote == '\'',
        forall|i: int| 0 <= i < raw.len() ==> raw[i] != quote,
    ensures
        xml::quoted(seq![quote] + raw + seq![quote] + rest) == (match xml::expanded(raw) {
            Ok(value) => Ok::<(Seq<char>, Seq<char>), Error>((value, rest)),
            Err(e) => Err(e),
        }),
        xml::quoted(seq![quote] + raw) == Err::<(Seq<char>, Seq<char>), Error>(
            Error::Xml { reason: "unterminated attribute value" },
        ),
        rest.len() == 0 || (rest[0] != '"' && rest[0] != '\'') ==> xml::quoted(rest) == Err::<
            (Seq<char>, Seq<char>),
            Error,
        >(Error::Xml { reason: "attribute value must be quoted" }),
{
    let s = seq![quote] + raw + seq![quote] + rest;
    let body = s.drop_first();
    let k = raw.len() as int;
    assert(body =~= raw + seq![quote] + rest);
    assert forall|j: int| 0 <= j < k implies !(text::just(quote))(#[trigger] body[j]) by {
        assert(body[j] == raw[j]);
    }
    assert(body[k] == quote);
    text::lemma_until_is(body, text::just(quote), k);
    assert(body.take(k) =~= raw);
    assert(body.skip(k + 1) =~= rest);
    let open = seq![quote] + raw;
    assert(open.drop_first() =~= raw);
    text::lemma_until_is(raw, text::just(quote), k);
}

/// A start tag goes on until it is closed: by `>`, which leaves its element open, or by `/>`,
/// which does not. White space in it says nothing.
pub proof fn law_tags_end_in_a_bracket(
    space: char,
    rest: Seq<char>,
    attrs: Seq<(Seq<char>, Seq<char>)>,
)
    ensures
        space == ' ' || space == '\t' || space == '\r' || space == '\n' ==> xml::tag(
            seq![space] + rest,
            attrs,
        ) == xml::tag(rest, attrs),
        xml::tag(seq!['>'] + rest, attrs) == Ok::<TagView, Error>(
            TagView { attrs, closed: false, rest },
        ),
        xml::tag(seq!['/', '>'] + rest, attrs) == Ok::<TagView, Error>(
            TagView { attrs, closed: true, rest },
        ),
        xml::tag(Seq::empty(), attrs) == Err::<TagView, Error>(
            Error::Xml { reason: "unterminated start tag" },
        ),
{
    reveal(xml::tag);
    let s = seq![space] + rest;
    xml::lemma_skip_space(s);
    assert(s.drop_first() =~= rest);
    xml::lemma_tag_open(rest, attrs);
    let closed = seq!['/', '>'] + rest;
    xml::lemma_skip_space(closed);
    assert(closed.skip(2) =~= rest);
    xml::lemma_skip_space(Seq::empty());
}

/// Comments say nothing, in the content of an element and around the root, and neither do the XML
/// declaration and a document type declaration in front of it. Each ends at the first of what ends
/// it, and has to.
pub proof fn law_comments_and_declarations_say_nothing(
    e: ElementView,
    s: Seq<char>,
    depth: nat,
    k: int,
)
    requires
        depth <= 32,
    ensures
        text::begins(s, seq!['<', '!', '-', '-']) && text::find(s, seq!['-', '-', '>']) == Some(k)
            ==> {
            &&& xml::content(e, s, depth) == xml::content(e, s.skip(k + 3), depth)
            &&& xml::skip_prolog(s) == xml::skip_prolog(s.skip(k + 3))
        },
        text::begins(s, seq!['<', '?']) && text::find(s, seq!['?', '>']) == Some(k)
            ==> xml::skip_prolog(s) == xml::skip_prolog(s.skip(k + 2)),
        text::begins(s, seq!['<', '!']) && !text::begins(s, seq!['<', '!', '-', '-'])
            && text::find(s, seq!['>']) == Some(k) ==> xml::skip_prolog(s) == xml::skip_prolog(
            s.skip(k + 1),
        ),
        text::begins(s, seq!['<', '!', '-', '-']) && text::find(s, seq!['-', '-', '>']) is None
            ==> xml::content(e, s, depth) is Err && xml::skip_prolog(s) is Err,
        text::begins(s, seq!['<', '?']) && text::find(s, seq!['?', '>']) is None
            ==> xml::skip_prolog(s) is Err,
{
    reveal(xml::content);
    reveal(xml::skip_prolog);
    xml::lemma_skip_space(s);
    if text::begins(s, seq!['<', '!', '-', '-']) {
        assert(s.subrange(0, 4)[0] == '<' && s.subrange(0, 4)[1] == '!');
        assert(s[0] == '<' && s[1] == '!');
        xml::lemma_not_begun_second(s, seq!['<', '/']);
        xml::lemma_not_begun_second(s, seq!['<', '?']);
    }
    if text::begins(s, seq!['<', '?']) {
        assert(s.subrange(0, 2)[0] == '<');
    }
    if text::begins(s, seq!['<', '!']) {
        assert(s.subrange(0, 2)[0] == '<' && s.subrange(0, 2)[1] == '!');
        assert(s[0] == '<' && s[1] == '!');
        xml::lemma_not_begun_second(s, seq!['<', '?']);
    }
}

/// Elements are nested thirty-two deep at most below the root, and no deeper.
pub proof fn law_nesting_is_limited(s: Seq<char>, depth: nat)
    ensures
        depth > 32 ==> xml::element(s, depth) == Err::<(ElementView, Seq<char>), Error>(
            Error::Xml { reason: "element nesting too deep" },
        ),
        depth <= 32 && (s.len() == 0 || s[0] != '<') ==> xml::element(s, depth) == Err::<
            (ElementView, Seq<char>),
            Error,
        >(Error::Xml { reason: "expected an element" }),
{
    reveal(xml::element);
}

/// An element ends at an end tag of its own name, white space aside; an end tag of another name is
/// refused, and so is content without one.
pub proof fn law_end_tags_name_their_element(
    e: ElementView,
    closing: Seq<char>,
    rest: Seq<char>,
    depth: nat,
)
    requires
        depth <= 32,
        xml::is_name(closing),
    ensures
        xml::content(e, seq!['<', '/'] + closing + seq!['>'] + rest, depth) == (if closing
            == e.name {
            Ok::<(ElementView, Seq<char>), Error>((e, rest))
        } else {
            Err(Error::Xml { reason: "end tag does not match its start tag" })
        }),
        xml::content(e, Seq::empty(), depth) == Err::<(ElementView, Seq<char>), Error>(
            Error::Xml { reason: "unterminated element content" },
        ),
{
    let s = seq!['<', '/'] + closing + seq!['>'] + rest;
    reveal(xml::content);
    let after = seq!['>'] + rest;
    assert(s.subrange(0, 2) =~= seq!['<', '/']);
    assert(s.skip(2) =~= closing + after);
    xml::lemma_name(closing, after);
    xml::lemma_skip_space(after);
    assert(after.drop_first() =~= rest);
}

/// An attribute is looked up by its name: what is found is the first of that name, and nothing is
/// found exactly where there is none.
pub proof fn law_the_first_attribute_of_a_name_is_found(e: ElementView, name: Seq<char>)
    ensures
        match e.attr(name) {
            Some(value) => exists|i: int|
                0 <= i < e.attrs.len() && #[trigger] e.attrs[i] == (name, value) && forall|j: int|
                    0 <= j < i ==> (#[trigger] e.attrs[j]).0 != name,
            None => forall|j: int| 0 <= j < e.attrs.len() ==> (#[trigger] e.attrs[j]).0 != name,
        },
{
    lemma_first_attr(e.attrs, name);
}

proof fn lemma_first_attr(attrs: Seq<(Seq<char>, Seq<char>)>, name: Seq<char>)
    ensures
        match xml::first_attr(attrs, name) {
            Some(value) => exists|i: int|
                0 <= i < attrs.len() && #[trigger] attrs[i] == (name, value) && forall|j: int|
                    0 <= j < i ==> (#[trigger] attrs[j]).0 != name,
            None => forall|j: int| 0 <= j < attrs.len() ==> (#[trigger] attrs[j]).0 != name,
        },
    decreases attrs.len(),
{
    if attrs.len() > 0 {
        let rest = attrs.drop_first();
        if attrs[0].0 == name {
            assert(attrs[0] == (name, attrs[0].1));
        } else {
            lemma_first_attr(rest, name);
            match xml::first_attr(rest, name) {
                Some(value) => {
                    let i = choose|i: int|
                        0 <= i < rest.len() && #[trigger] rest[i] == (name, value) && forall|j: int|
                            0 <= j < i ==> (#[trigger] rest[j]).0 != name;
                    assert(attrs[i + 1] == rest[i]);
                    assert forall|j: int| 0 <= j < i + 1 implies (#[trigger] attrs[j]).0
                        != name by {
                        if j > 0 {
                            assert(attrs[j] == rest[j - 1]);
                        }
                    }
                },
                None => {
                    assert forall|j: int| 0 <= j < attrs.len() implies (#[trigger] attrs[j]).0
                        != name by {
                        if j > 0 {
                            assert(attrs[j] == rest[j - 1]);
                        }
                    }
                },
            }
        }
    }
}

/// The children of a name are those that have it, in order, and no others.
pub proof fn law_children_are_picked_by_name(
    e: ElementView,
    name: Seq<char>,
    child: ElementView,
)
    ensures
        (ElementView { children: Seq::empty(), ..e }).children_named(name).len() == 0,
        (ElementView { children: e.children.push(child), ..e }).children_named(name) == (
        if child.name == name {
            e.children_named(name).push(child)
        } else {
            e.children_named(name)
        }),
{
    let pred = |c: ElementView| c.name == name;
    let all = e.children.push(child);
    assert(all.drop_last() =~= e.children);
    reveal(Seq::filter);
    assert((ElementView { children: Seq::<ElementView>::empty(), ..e }).children_named(name)
        =~= Seq::empty());
}

/// A document is one element, with nothing around it but white space, comments and declarations,
/// in UTF-8.
pub proof fn law_documents_hold_one_element(input: Seq<u8>, s: Seq<char>)
    ensures
        !utf8::valid_utf8(input) ==> xml::parsed(input) == Err::<ElementView, Error>(
            Error::NotUtf8,
        ),
        xml::parsed(utf8::encode_utf8(s)) == xml::document(s),
        match xml::document(s) {
            Ok(root) => xml::skip_prolog(s) matches Ok(start) && xml::element(start, 0) matches Ok(
                (found, behind),
            ) && found == root && xml::skip_prolog(behind) == Ok::<Seq<char>, Error>(Seq::empty()),
            Err(_) => xml::skip_prolog(s) matches Ok(start) ==> (xml::element(start, 0) matches Ok(
                (_, behind),
            ) ==> (xml::skip_prolog(behind) matches Ok(left) ==> left.len() > 0)),
        },
{
    utf8::encode_utf8_valid_utf8(s);
    utf8::encode_utf8_decode_utf8(s);
    if let Ok(root) = xml::document(s) {
        let behind = xml::element(xml::skip_prolog(s)->Ok_0, 0)->Ok_0.1;
        assert(xml::skip_prolog(behind)->Ok_0 =~= Seq::<char>::empty());
    }
}

/// An element of the same name and attributes with nothing in it.
pub open spec fn emptied(e: ElementView) -> ElementView {
    ElementView { text: Seq::empty(), children: Seq::empty(), ..e }
}

/// Content adds up: what is read onto an element comes behind what it holds already, the text
/// behind its text and the children behind its children, in the order that they are read. What is
/// read, where it ends and whether it can be read do not depend on what the element holds.
pub proof fn law_content_adds_up(e: ElementView, s: Seq<char>, depth: nat)
    requires
        depth <= xml::MAX_DEPTH,
    ensures
        match (xml::content(e, s, depth), xml::content(emptied(e), s, depth)) {
            (Ok((all, rest)), Ok((read, after))) => {
                &&& rest == after
                &&& all.name == e.name
                &&& all.attrs == e.attrs
                &&& all.text == e.text + read.text
                &&& all.children == e.children + read.children
            },
            (Err(a), Err(b)) => a == b,
            _ => false,
        },
    decreases s.len(), 0int,
{
    reveal(xml::content);
    reveal(xml::element);
    let base = emptied(e);
    let comment = seq!['-', '-', '>'];
    xml::lemma_upto(s, comment);
    if s.len() >= 9 {
        xml::lemma_upto(s.skip(9), xml::cdata_close());
    }
    text::lemma_until(s, text::just('<'));
    if text::begins(s, seq!['<', '/']) {
        assert(e.text + base.text =~= e.text);
        assert(e.children + base.children =~= e.children);
    } else if text::begins(s, seq!['<', '!', '-', '-']) {
        if let Ok(rest) = xml::past(s, comment) {
            law_content_adds_up(e, rest, depth);
        }
    } else if text::begins(s, xml::cdata_open()) {
        if let Some((literal, rest)) = xml::upto(s.skip(9), xml::cdata_close()) {
            lemma_read_behind(e, literal, Seq::empty(), rest, depth);
        }
    } else if s.len() == 0 {
    } else if s[0] == '<' {
        if let Ok((child, rest)) = xml::element(s, depth + 1) {
            if rest.len() < s.len() {
                lemma_read_behind(e, Seq::empty(), seq![child], rest, depth);
                assert(e.children.push(child) =~= e.children + seq![child]);
                assert(base.children.push(child) =~= base.children + seq![child]);
                assert(e.text + Seq::<char>::empty() =~= e.text);
                assert(base.text + Seq::<char>::empty() =~= base.text);
            }
        }
    } else {
        let k = text::until(s, text::just('<'));
        if let Ok(more) = xml::expanded(s.take(k)) {
            lemma_read_behind(e, more, Seq::empty(), s.skip(k), depth);
        }
    }
    assert(e.children + Seq::<ElementView>::empty() =~= e.children);
    assert(base.children + Seq::<ElementView>::empty() =~= base.children);
}

/// Content adds up behind what one step has read.
proof fn lemma_read_behind(
    e: ElementView,
    more: Seq<char>,
    children: Seq<ElementView>,
    rest: Seq<char>,
    depth: nat,
)
    requires
        depth <= xml::MAX_DEPTH,
    ensures
        ({
            let base = emptied(e);
            let onto = ElementView {
                text: e.text + more,
                children: e.children + children,
                ..e
            };
            let fresh = ElementView {
                text: base.text + more,
                children: base.children + children,
                ..base
            };
            match (xml::content(onto, rest, depth), xml::content(fresh, rest, depth)) {
                (Ok((all, end)), Ok((read, after))) => {
                    &&& end == after
                    &&& all.name == e.name
                    &&& all.attrs == e.attrs
                    &&& all.text == e.text + read.text
                    &&& all.children == e.children + read.children
                },
                (Err(a), Err(b)) => a == b,
                _ => false,
            }
        }),
    decreases rest.len(), 1int,
{
    let base = emptied(e);
    let onto = ElementView { text: e.text + more, children: e.children + children, ..e };
    let fresh = ElementView { text: base.text + more, children: base.children + children, ..base };
    law_content_adds_up(onto, rest, depth);
    law_content_adds_up(fresh, rest, depth);
    assert(emptied(onto) == base && emptied(fresh) == base);
    if let Ok((read, _)) = xml::content(base, rest, depth) {
        assert(e.text + more + read.text =~= e.text + (base.text + more + read.text));
        assert(e.children + children + read.children =~= e.children + (base.children + children
            + read.children));
    }
}

/// An element in the content of another becomes its next child, behind those that it has, and
/// leaves the text read before it as it was.
pub proof fn law_elements_become_children(
    e: ElementView,
    s: Seq<char>,
    rest: Seq<char>,
    child: ElementView,
    depth: nat,
)
    requires
        depth <= xml::MAX_DEPTH,
        s.len() > 1,
        s[0] == '<',
        s[1] != '/',
        s[1] != '!',
        rest.len() < s.len(),
        xml::element(s, depth + 1) == Ok::<(ElementView, Seq<char>), Error>((child, rest)),
    ensures
        xml::content(e, s, depth) matches Ok((all, _)) ==> {
            let n = e.children.len() as int;
            &&& all.children.len() > n
            &&& all.children[n] == child
            &&& all.children.take(n) == e.children
            &&& all.text.len() >= e.text.len()
            &&& all.text.take(e.text.len() as int) == e.text
        },
{
    let onto = ElementView { children: e.children.push(child), ..e };
    xml::lemma_content_child(e, s, child, rest, depth);
    law_content_adds_up(onto, rest, depth);
}

/// A `CDATA` section adds its text as it stands behind the text that an element holds, whatever
/// markup it looks like.
pub proof fn law_sections_are_kept(e: ElementView, literal: Seq<char>, rest: Seq<char>, depth: nat)
    requires
        depth <= xml::MAX_DEPTH,
        forall|i: int|
            0 <= i < literal.len() - 2 ==> !(#[trigger] literal[i] == ']' && literal[i + 1] == ']'
                && literal[i + 2] == '>'),
    ensures
        xml::content(
            e,
            seq!['<', '!', '[', 'C', 'D', 'A', 'T', 'A', '['] + literal + seq![']', ']', '>']
                + rest,
            depth,
        ) matches Ok((all, _)) ==> {
            let n = (e.text + literal).len() as int;
            &&& all.text.len() >= n
            &&& all.text.take(n) == e.text + literal
            &&& all.children.len() >= e.children.len()
            &&& all.children.take(e.children.len() as int) == e.children
        },
{
    let open = xml::cdata_open();
    let close = xml::cdata_close();
    let body = literal + close + rest;
    let s = open + literal + close + rest;
    let k = literal.len() as int;
    assert(s.subrange(0, 9) =~= open);
    assert(s.skip(9) =~= body);
    assert(s[1] == '!' && s[2] == '[');
    assert(s.subrange(0, 2)[1] == '!');
    assert(s.subrange(0, 4)[2] == '[');
    assert(body.subrange(k, k + 3) =~= close);
    assert forall|j: int| 0 <= j < k implies !(#[trigger] text::stands_at(body, close, j)) by {
        assert(body[j] == literal[j]);
        if text::stands_at(body, close, j) {
            let found = body.subrange(j, j + 3);
            assert(found[0] == body[j] && found[1] == body[j + 1] && found[2] == body[j + 2]);
        }
    }
    text::lemma_find_is(body, close, k);
    assert(body.take(k) =~= literal);
    assert(body.skip(k + 3) =~= rest);
    let onto = ElementView { text: e.text + literal, ..e };
    reveal(xml::content);
    assert(xml::content(e, s, depth) == xml::content(onto, rest, depth));
    law_content_adds_up(onto, rest, depth);
}

} // verus!
