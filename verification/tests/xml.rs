//! Reading the XML that channel management uses.

use std::borrow::Cow;
use vortice::error::Error;
use vortice::xml::{decode_entities, escape, parse, MAX_DEPTH};

#[test]
fn parses_an_empty_element() {
    let root = parse(b"<greeting />").unwrap();
    assert_eq!(root.name, "greeting");
    assert!(root.attrs.is_empty());
    assert!(root.children.is_empty());
}

#[test]
fn parses_attributes_with_either_quote_style() {
    let root = parse(b"<greeting features='x' localize=\"es-ES\" />").unwrap();
    assert_eq!(root.attr("features"), Some("x"));
    assert_eq!(root.attr("localize"), Some("es-ES"));
    assert_eq!(root.attr("absent"), None);
}

#[test]
fn parses_children_the_way_libvortex_lays_a_greeting_out() {
    let doc =
        b"<greeting>\r\n   <profile uri='a' />\r\n   <profile uri='b' />\r\n</greeting>\r\n";
    let root = parse(doc).unwrap();
    let uris: Vec<_> = root
        .children_named("profile")
        .into_iter()
        .filter_map(|child| child.attr("uri"))
        .collect();
    assert_eq!(uris, ["a", "b"]);
}

#[test]
fn parses_element_text() {
    let root = parse(b"<error code='550'>still working</error>").unwrap();
    assert_eq!(root.attr("code"), Some("550"));
    assert_eq!(root.text, "still working");
}

#[test]
fn skips_the_declaration_comments_and_doctype() {
    let doc = b"<?xml version='1.0'?><!-- hi --><!DOCTYPE greeting><greeting /><!-- bye -->";
    assert_eq!(parse(doc).unwrap().name, "greeting");
}

#[test]
fn expands_predefined_and_numeric_entities() {
    let root = parse(b"<profile uri='a&amp;b&#66;&#x43;' />").unwrap();
    assert_eq!(root.attr("uri"), Some("a&bBC"));
    assert_eq!(parse(b"<e>&lt;&gt;&quot;&apos;</e>").unwrap().text, "<>\"'");
}

#[test]
fn borrows_attribute_values_that_need_no_expansion() {
    let root = parse(b"<profile uri='plain' />").unwrap();
    assert!(matches!(root.attrs[0].1, Cow::Borrowed(_)));
}

#[test]
fn borrows_every_value_with_nothing_to_expand_and_no_other() {
    let document = b"<a u='x' v=\"y&amp;z\" w=''>t<b/><![CDATA[<c]]><!-- <d --><b p='&#65;' q='B'/></a>";
    let root = parse(document).unwrap();
    let borrowed = |attrs: &[(&str, Cow<'_, str>)]| -> Vec<bool> {
        attrs
            .iter()
            .map(|(_, value)| matches!(value, Cow::Borrowed(_)))
            .collect()
    };
    assert_eq!(borrowed(&root.attrs), [true, false, true]);
    assert_eq!(root.attr("v"), Some("y&z"));
    assert_eq!(root.children.len(), 2);
    assert!(root.children[0].attrs.is_empty());
    assert_eq!(borrowed(&root.children[1].attrs), [false, true]);
    assert_eq!(root.children[1].attr("p"), Some("A"));
}

/// What is escaped reads back as it was, and text without a reference as it is.
#[test]
fn decoding_undoes_escaping() {
    for value in ["", "plain", "a&b<c>d'e\"f", "&amp;", "&&", "\u{1f600}&;"] {
        let mut escaped = String::new();
        escape(&mut escaped, value);
        assert_eq!(decode_entities(&escaped).unwrap(), value);
        assert!(!escaped.contains(['<', '>', '\'', '"']));
    }
    let plain = decode_entities("no <reference> 'here'; \u{e9}").unwrap();
    assert!(matches!(plain, Cow::Borrowed("no <reference> 'here'; \u{e9}")));
    assert!(matches!(decode_entities("&lt;").unwrap(), Cow::Owned(_)));
    assert!(decode_entities("&amp").is_err());
    assert!(decode_entities("&nbsp;").is_err());
}

#[test]
fn reads_cdata_sections_verbatim() {
    let root = parse(b"<profile uri='u'><![CDATA[<not markup> & raw]]></profile>").unwrap();
    assert_eq!(root.text, "<not markup> & raw");
    assert!(root.children.is_empty());
}

#[test]
fn joins_cdata_with_surrounding_text() {
    let root = parse(b"<e>before<![CDATA[ raw ]]>after</e>").unwrap();
    assert_eq!(root.text, "before raw after");
}

#[test]
fn accepts_an_empty_cdata_section() {
    assert_eq!(parse(b"<e><![CDATA[]]></e>").unwrap().text, "");
}

#[test]
fn rejects_an_unterminated_cdata_section() {
    assert!(parse(b"<e><![CDATA[ never closed</e>").is_err());
}

#[test]
fn rejects_mismatched_tags() {
    assert!(parse(b"<greeting></profile>").is_err());
}

#[test]
fn rejects_unterminated_input() {
    assert!(parse(b"<greeting").is_err());
    assert!(parse(b"<greeting>").is_err());
    assert!(parse(b"<greeting uri='x").is_err());
    assert!(parse(b"<!-- unterminated").is_err());
    assert!(parse(b"<e>&amp").is_err());
}

#[test]
fn rejects_content_after_the_root_element() {
    assert!(parse(b"<greeting /><greeting />").is_err());
}

#[test]
fn rejects_unquoted_attribute_values() {
    assert!(parse(b"<profile uri=plain />").is_err());
}

#[test]
fn rejects_deeply_nested_documents() {
    let mut doc = Vec::new();
    for _ in 0..MAX_DEPTH + 2 {
        doc.extend_from_slice(b"<e>");
    }
    for _ in 0..MAX_DEPTH + 2 {
        doc.extend_from_slice(b"</e>");
    }
    assert!(parse(&doc).is_err());
}

#[test]
fn rejects_invalid_utf8() {
    assert_eq!(parse(b"<e>\xff</e>").unwrap_err(), Error::NotUtf8);
}

/// What is escaped on the way out is expanded on the way in.
#[test]
fn escaping_is_undone_by_parsing() {
    for value in ["", "plain", "a&b<c>'d\"", "&amp;", "\u{e9}\u{1f600}", "&#66;"] {
        let mut document = String::from("<e a='");
        escape(&mut document, value);
        document.push_str("'>");
        escape(&mut document, value);
        document.push_str("</e>");
        let root = parse(document.as_bytes()).unwrap();
        assert_eq!(root.attr("a"), Some(value));
        assert_eq!(root.text, value);
    }
}

#[test]
fn escapes_exactly_what_is_markup() {
    let mut out = String::new();
    escape(&mut out, "a&b<c>d'e\"f");
    assert_eq!(out, "a&amp;b&lt;c&gt;d&apos;e&quot;f");
}

#[test]
fn rejects_references_it_does_not_know() {
    let unknown = Error::Xml {
        reason: "unsupported entity reference",
    };
    assert_eq!(parse(b"<e>&nbsp;</e>").unwrap_err(), unknown);
    assert_eq!(parse(b"<e>&#xd800;</e>").unwrap_err(), unknown);
    assert_eq!(parse(b"<e>&#;</e>").unwrap_err(), unknown);
}
