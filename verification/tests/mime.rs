//! Splitting payloads into headers and body.

use vortice::mime::{content_type, header, split, BEEP_XML, DEFAULT_CONTENT_TYPE};

#[test]
fn splits_headers_from_body() {
    let (headers, body) = split(b"Content-Type: application/beep+xml\r\n\r\n<greeting />");
    assert_eq!(headers, b"Content-Type: application/beep+xml");
    assert_eq!(body, b"<greeting />");
}

#[test]
fn treats_a_leading_blank_line_as_empty_headers() {
    assert_eq!(split(b"\r\npayload"), (&b""[..], &b"payload"[..]));
    assert_eq!(split(b"\r\n"), (&b""[..], &b""[..]));
}

#[test]
fn treats_a_payload_without_mime_structure_as_all_body() {
    assert_eq!(split(b"just bytes"), (&b""[..], &b"just bytes"[..]));
    assert_eq!(split(b""), (&b""[..], &b""[..]));
}

#[test]
fn keeps_crlf_pairs_inside_the_body() {
    let (headers, body) = split(b"A: b\r\n\r\nfirst\r\n\r\nsecond");
    assert_eq!(headers, b"A: b");
    assert_eq!(body, b"first\r\n\r\nsecond");
}

#[test]
fn finds_headers_case_insensitively() {
    let headers = b"Content-Type: application/beep+xml\r\nContent-Transfer-Encoding: binary";
    assert_eq!(
        header(headers, "content-type"),
        Some(&b"application/beep+xml"[..])
    );
    assert_eq!(
        header(headers, "CONTENT-TRANSFER-ENCODING"),
        Some(&b"binary"[..])
    );
    assert_eq!(header(headers, "Content"), None);
}

#[test]
fn defaults_the_content_type_the_way_libvortex_does() {
    assert_eq!(
        content_type(b"raw payload"),
        DEFAULT_CONTENT_TYPE.as_bytes()
    );
    assert_eq!(
        content_type(b"Content-Type: application/beep+xml\r\n\r\n<greeting />"),
        BEEP_XML.as_bytes()
    );
}

#[test]
fn header_values_lose_the_white_space_around_them() {
    assert_eq!(header(b"A: \t b c \r\nD:e", "a"), Some(&b"b c"[..]));
    assert_eq!(header(b"A: \t b c \r\nD:e", "d"), Some(&b"e"[..]));
    assert_eq!(header(b"A : b", "a"), None);
}

/// A document comes back out of the payload that carries it, line ends and all.
#[test]
fn documents_survive_their_headers() {
    for document in ["", "<a />", "\r\n\r\n", "x\r\n\r\ny"] {
        let payload = format!("Content-Type: application/beep+xml\r\n\r\n{document}");
        assert_eq!(split(payload.as_bytes()).1, document.as_bytes());
        assert_eq!(content_type(payload.as_bytes()), BEEP_XML.as_bytes());
    }
}
