//! The WebSocket handshake.

use bytes::{Bytes, BytesMut};
use vortice::head::{find_blank_line, Reader, MAX_HEAD};
use vortice::ws::error::Error;
use vortice::ws::frame::ProtocolError;
use vortice::ws::handshake::{
    accept, accept_key, client_key, conclude, drawn_nonce, nonce_key, parse_request,
    parse_response, read_head, request, response,
};

#[test]
fn answers_the_rfc6455_worked_example() {
    assert_eq!(
        accept_key("dGhlIHNhbXBsZSBub25jZQ=="),
        "s3pPLMBiTxaQ9kYGzzhZRbK+xOo="
    );
}

#[test]
fn accepts_a_well_formed_request() {
    let head = request("/beep", "example.com:8080", "dGhlIHNhbXBsZSBub25jZQ==");
    let parsed = parse_request(&head).expect("a valid handshake");
    assert_eq!(parsed.key, "dGhlIHNhbXBsZSBub25jZQ==");
}

/// Field names and the tokens in them are case insensitive, and `Connection` is a list.
#[test]
fn accepts_the_spellings_a_peer_may_use() {
    let head = "GET / HTTP/1.1\r\n\
                Host: example.com\r\n\
                UPGRADE: WebSocket\r\n\
                Connection: keep-alive, Upgrade\r\n\
                Sec-WebSocket-Key: dGhlIHNhbXBsZSBub25jZQ==\r\n\
                Sec-WebSocket-Version: 13\r\n";
    assert!(parse_request(head).is_ok());
}

#[test]
fn refuses_a_request_that_is_missing_a_piece() {
    let complete = "GET / HTTP/1.1\r\n\
                    Upgrade: websocket\r\n\
                    Connection: Upgrade\r\n\
                    Sec-WebSocket-Key: k\r\n\
                    Sec-WebSocket-Version: 13\r\n";

    for dropped in ["Upgrade:", "Connection:", "Sec-WebSocket-Key:"] {
        let head: String = complete
            .split("\r\n")
            .filter(|line| !line.starts_with(dropped))
            .collect::<Vec<_>>()
            .join("\r\n");
        assert!(
            matches!(parse_request(&head), Err(Error::Handshake { .. })),
            "a request without {dropped} should be refused"
        );
    }
}

#[test]
fn refuses_a_version_it_does_not_speak() {
    let head = "GET / HTTP/1.1\r\n\
                Upgrade: websocket\r\n\
                Connection: Upgrade\r\n\
                Sec-WebSocket-Key: k\r\n\
                Sec-WebSocket-Version: 8\r\n";
    assert!(matches!(parse_request(head), Err(Error::Handshake { .. })));
}

#[test]
fn refuses_a_method_other_than_get() {
    let head = "POST / HTTP/1.1\r\nUpgrade: websocket\r\n";
    assert!(matches!(parse_request(head), Err(Error::Handshake { .. })));
}

#[test]
fn a_response_answers_its_own_request() {
    let key = "dGhlIHNhbXBsZSBub25jZQ==";
    assert!(parse_response(&response(key), key).is_ok());
}

#[test]
fn refuses_a_response_answering_a_different_key() {
    let answer = response("c29tZSBvdGhlciBrZXk=");
    assert!(matches!(
        parse_response(&answer, "dGhlIHNhbXBsZSBub25jZQ=="),
        Err(Error::Handshake { .. })
    ));
}

#[test]
fn reports_a_status_that_is_not_a_switch() {
    let answer = "HTTP/1.1 404 Not Found\r\nContent-Length: 0\r\n";
    assert!(matches!(
        parse_response(answer, "k"),
        Err(Error::NotUpgraded { status: Some(404) })
    ));
}

#[test]
fn finds_the_end_of_a_head() {
    assert_eq!(find_blank_line(b"GET / HTTP/1.1\r\n\r\n"), Some(18));
    assert_eq!(find_blank_line(b"GET / HTTP/1.1\r\n"), None);
}

/// A whole exchange, each head arriving a few octets at a time, with frames right behind both.
#[test]
fn a_handshake_completes_from_one_end_to_the_other() {
    let key = client_key().expect("randomness");
    assert_eq!(key.len(), 24);
    let mut sent = request("/beep", "example.com", &key).into_bytes();
    sent.extend_from_slice(b"early");

    let mut server = Reader::new(BytesMut::new());
    let (front, back) = sent.split_at(sent.len() - 8);
    for chunk in front.chunks(7) {
        server.received(chunk).expect("octets");
        assert_eq!(accept(&mut server), Ok(None));
    }
    server.received(back).expect("octets");
    let (answer, leftover) = accept(&mut server).expect("a handshake").expect("an answer");
    assert_eq!(leftover, Bytes::from_static(b"early"));
    assert_eq!(answer, response(&key));

    let mut client = Reader::new(BytesMut::from(answer.as_bytes()));
    assert_eq!(conclude(&mut client, &key), Ok(Some(Bytes::new())));
}

#[test]
fn two_keys_are_not_the_same() {
    assert_ne!(client_key().expect("randomness"), client_key().expect("randomness"));
    assert_eq!(nonce_key(&[0; 16]), "AAAAAAAAAAAAAAAAAAAAAA==");
}

#[test]
fn writes_the_lines_of_a_request() {
    assert_eq!(
        request("/", "h", "k"),
        "GET / HTTP/1.1\r\nHost: h\r\nUpgrade: websocket\r\nConnection: Upgrade\r\n\
         Sec-WebSocket-Key: k\r\nSec-WebSocket-Version: 13\r\n\r\n"
    );
    assert_eq!(
        response("dGhlIHNhbXBsZSBub25jZQ=="),
        "HTTP/1.1 101 Switching Protocols\r\nUpgrade: websocket\r\nConnection: Upgrade\r\n\
         Sec-WebSocket-Accept: s3pPLMBiTxaQ9kYGzzhZRbK+xOo=\r\n\r\n"
    );
}

#[test]
fn says_what_a_request_is_missing() {
    let refused = |head: &str| match parse_request(head) {
        Err(Error::Handshake { reason }) => reason,
        other => panic!("expected a refusal, got {other:?}"),
    };
    assert_eq!(refused(""), "a websocket handshake must be a GET");
    assert_eq!(
        refused("GET / HTTP/1.1\r\n"),
        "the request does not ask to upgrade to websocket"
    );
    assert_eq!(
        refused("GET / HTTP/1.1\r\nUpgrade: x, websocket\r\n"),
        "the request is missing Connection: Upgrade"
    );
    assert_eq!(
        refused("GET / HTTP/1.1\r\nUpgrade: websocket\r\nConnection: upgrade\r\n"),
        "only websocket version 13 is supported"
    );
    assert_eq!(
        refused(
            "GET / HTTP/1.1\r\nUpgrade: websocket\r\nConnection: upgrade\r\n\
             Sec-WebSocket-Version: 13\r\n"
        ),
        "the request is missing Sec-WebSocket-Key"
    );
}

#[test]
fn says_why_no_head_could_be_read() {
    let mut endless = Reader::new(BytesMut::from(&vec![b'x'; MAX_HEAD + 1][..]));
    assert_eq!(
        read_head(&mut endless),
        Err(Error::Handshake {
            reason: "no blank line ending the handshake head"
        })
    );

    let mut closed = Reader::new(BytesMut::from(&b"GET /"[..]));
    assert_eq!(read_head(&mut closed), Ok(None));
    let fault = closed.received(b"").expect_err("nothing was read");
    assert_eq!(
        Error::from(fault),
        Error::Handshake {
            reason: "the connection closed before the handshake head was complete"
        }
    );

    let mut binary = Reader::new(BytesMut::from(&b"\xff\r\n\r\n"[..]));
    assert_eq!(
        read_head(&mut binary),
        Err(Error::Handshake {
            reason: "the handshake head is not text"
        })
    );
}

/// A blank line that arrives late is still found, however long the head before it.
#[test]
fn a_head_longer_than_the_limit_is_taken_when_its_end_is_there() {
    let mut octets = vec![b'x'; MAX_HEAD + 100];
    octets.extend_from_slice(b"\r\n\r\nrest");
    let mut reader = Reader::new(BytesMut::from(&octets[..]));
    let (head, rest) = read_head(&mut reader).expect("text").expect("a head");
    assert_eq!(head.len(), MAX_HEAD + 104);
    assert_eq!(rest, Bytes::from_static(b"rest"));
}

#[test]
fn reads_statuses_as_numbers() {
    let status = |head: &str| match parse_response(head, "k") {
        Err(Error::NotUpgraded { status }) => status,
        other => panic!("expected no upgrade, got {other:?}"),
    };
    assert_eq!(status("HTTP/1.1 +200 OK\r\n"), Some(200));
    assert_eq!(status("HTTP/1.1 65536 Huge\r\n"), None);
    assert_eq!(status("HTTP/1.1 -1\r\n"), None);
    assert_eq!(status("HTTP/1.1\r\n"), None);
    assert_eq!(status(""), None);
}

#[test]
fn websocket_errors_describe_themselves() {
    let said = [
        (
            Error::Io("broken pipe".to_owned()),
            "websocket transport failed: broken pipe",
        ),
        (
            Error::Session("over".to_owned()),
            "beep session failed: over",
        ),
        (
            Error::Handshake { reason: "why" },
            "websocket handshake failed: why",
        ),
        (
            Error::NotUpgraded { status: Some(404) },
            "server answered 404 instead of 101",
        ),
        (
            Error::NotUpgraded { status: None },
            "the server's answer had no readable status",
        ),
        (
            Error::from(ProtocolError::ReservedBits),
            "websocket framing error: a reserved bit is set on a frame header",
        ),
        (
            Error::Entropy,
            "the operating system had no randomness for a websocket masking key",
        ),
    ];
    for (error, text) in said {
        assert_eq!(error.message(), text);
    }
}

#[test]
fn a_nonce_is_what_was_drawn() {
    let octets = *b"the sample nonce";
    assert_eq!(
        drawn_nonce(true, octets),
        Ok("dGhlIHNhbXBsZSBub25jZQ==".to_owned())
    );
    assert_eq!(drawn_nonce(true, octets), Ok(nonce_key(&octets)));
    assert_eq!(drawn_nonce(false, octets), Err(Error::Entropy));
}
