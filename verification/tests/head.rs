//! The heads of HTTP messages.

use bytes::{Bytes, BytesMut};
use vortice::head::{value_lists, Fault, Head, Reader};

#[test]
fn splits_a_head_into_its_first_line_and_its_fields() {
    let head = Head::parse("GET  / HTTP/1.1\r\nHost : h\r\nno field\r\nA: b: c\r\na:d\r\n\r\n");
    assert!(head.begins_with("GET"));
    assert!(!head.begins_with("get"));
    assert_eq!(head.value("HOST").as_deref(), Some("h"));
    assert_eq!(head.value("a").as_deref(), Some("b: c"));
    assert_eq!(head.value("no field"), None);
    assert!(head.has("A", "d"));
    assert!(!head.has("A", "D"));
    assert_eq!(head.status(), None);
    assert_eq!(Head::parse("HTTP/1.1 200 OK").status(), Some(200));
}

#[test]
fn a_field_names_a_token_among_others() {
    let head = Head::parse("x\r\nConnection: keep-alive , UPGRADE\r\nConnection: other\r\n");
    assert!(head.names("connection", "upgrade"));
    assert!(head.names("CONNECTION", "Other"));
    assert!(!head.names("connection", "keep"));
    assert!(!head.names("upgrade", "upgrade"));
    assert!(value_lists("a,b", "B"));
    assert!(value_lists("", ""));
    assert!(!value_lists("a b", "a"));
}

#[test]
fn a_head_is_read_whole_and_what_follows_is_kept() {
    let octets = "HTTP/1.1 101 \u{e9}\r\nA: b\r\n\r\nframes\r\n\r\n".as_bytes();
    let mut reader = Reader::new(BytesMut::new());
    for octet in &octets[..octets.len() - 10] {
        assert_eq!(reader.poll(), Ok(None));
        assert_eq!(reader.received(&[*octet]), Ok(()));
    }
    assert_eq!(reader.received(&octets[octets.len() - 10..]), Ok(()));
    assert_eq!(
        reader.poll(),
        Ok(Some((
            "HTTP/1.1 101 \u{e9}\r\nA: b\r\n\r\n".to_owned(),
            Bytes::from_static(b"frames\r\n\r\n")
        )))
    );
}

#[test]
fn reading_stops_at_the_end_of_the_stream() {
    let mut reader = Reader::new(BytesMut::from(&b"half"[..]));
    assert_eq!(reader.received(b""), Err(Fault::Closed));
}
