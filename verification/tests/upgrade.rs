//! The HTTP upgrade to BEEP.

use bytes::{Bytes, BytesMut};
use http::{HeaderMap, HeaderValue};
use vortice::head::{find_blank_line, Reader, MAX_HEAD};
use vortice::upgrade::{
    answer, check_switching_protocols, check_upgrade, is_beep_upgrade, read_switching_protocols,
    request, Error, NotAnUpgrade, DEFAULT_PATH, UPGRADE_TOKEN,
};

#[test]
fn finds_the_end_of_a_response_head() {
    assert_eq!(find_blank_line(b"HTTP/1.1 101\r\n\r\n"), Some(16));
    assert_eq!(find_blank_line(b"HTTP/1.1 101\r\n\r\nRPY 0 0"), Some(16));
}

#[test]
fn reports_an_incomplete_head() {
    assert_eq!(find_blank_line(b"HTTP/1.1 101\r\n"), None);
    assert_eq!(find_blank_line(b""), None);
}

#[test]
fn writes_the_lines_of_an_upgrade_request() {
    assert_eq!(UPGRADE_TOKEN, "BEEP");
    assert_eq!(
        request(DEFAULT_PATH, "api.example.com"),
        "GET /beep HTTP/1.1\r\nHost: api.example.com\r\nConnection: Upgrade\r\n\
         Upgrade: BEEP\r\n\r\n"
    );
}

/// The exchange of the module's documentation, with the greeting in the same segment.
#[test]
fn keeps_what_comes_behind_the_switch() {
    let mut reader = Reader::new(BytesMut::from(
        &b"HTTP/1.1 101 Switching Protocols\r\nConnection: Upgrade\r\n"[..],
    ));
    assert_eq!(read_switching_protocols(&mut reader), Ok(None));
    reader
        .received(b"Upgrade: other, beep\r\n\r\nRPY 0 0")
        .expect("octets");
    assert_eq!(
        read_switching_protocols(&mut reader),
        Ok(Some(Bytes::from_static(b"RPY 0 0")))
    );
}

#[test]
fn takes_nothing_but_a_switch_to_beep() {
    assert_eq!(
        check_switching_protocols("HTTP/1.1 404 Not Found\r\nUpgrade: BEEP\r\n"),
        Err(Error::NotUpgraded { status: Some(404) })
    );
    assert_eq!(
        check_switching_protocols("HTTP/1.1 soon\r\n"),
        Err(Error::NotUpgraded { status: None })
    );
    assert_eq!(
        check_switching_protocols("HTTP/1.1 101 Switching Protocols\r\nUpgrade: websocket\r\n"),
        Err(Error::WrongProtocol)
    );
    assert_eq!(
        check_switching_protocols("HTTP/1.1 101 x\r\nUPGRADE: beep\r\n"),
        Ok(())
    );
}

#[test]
fn says_why_no_response_could_be_read() {
    let mut endless = Reader::new(BytesMut::from(&vec![b'x'; MAX_HEAD + 1][..]));
    assert_eq!(
        read_switching_protocols(&mut endless),
        Err(Error::MalformedResponse {
            reason: "no blank line ending the response head"
        })
    );
    let mut binary = Reader::new(BytesMut::from(&b"\xff\r\n\r\n"[..]));
    assert_eq!(
        read_switching_protocols(&mut binary),
        Err(Error::MalformedResponse {
            reason: "the response head is not text"
        })
    );
    let mut closed = Reader::new(BytesMut::new());
    assert_eq!(
        Error::from(closed.received(b"").expect_err("nothing was read")),
        Error::MalformedResponse {
            reason: "connection closed before the response head was complete"
        }
    );
}

/// Headers with the given values, in order.
fn headers(fields: &[(&'static str, &'static [u8])]) -> HeaderMap<HeaderValue> {
    let mut map = HeaderMap::new();
    for (name, value) in fields {
        map.append(*name, HeaderValue::from_bytes(value).expect("a value"));
    }
    map
}

#[test]
fn recognises_a_request_for_beep() {
    assert!(is_beep_upgrade(&headers(&[
        ("connection", b"keep-alive, Upgrade"),
        ("upgrade", b"beep"),
    ])));
    assert!(is_beep_upgrade(&headers(&[
        ("connection", b"close"),
        ("connection", b"UPGRADE"),
        ("upgrade", b"h2c"),
        ("upgrade", b"x, BEEP"),
    ])));
}

#[test]
fn both_halves_of_the_request_are_needed() {
    assert!(!is_beep_upgrade(&headers(&[])));
    assert!(!is_beep_upgrade(&headers(&[("upgrade", b"BEEP")])));
    assert!(!is_beep_upgrade(&headers(&[("connection", b"upgrade")])));
    assert!(!is_beep_upgrade(&headers(&[
        ("connection", b"upgrade"),
        ("upgrade", b"websocket"),
    ])));
}

/// A value that is not visible ASCII is passed over, and a tab is no reason to.
#[test]
fn passes_over_values_that_are_not_text() {
    assert!(!is_beep_upgrade(&headers(&[
        ("connection", b"upgrade"),
        ("upgrade", b"BEEP, \xff"),
    ])));
    assert!(is_beep_upgrade(&headers(&[
        ("connection", b"upgrade"),
        ("upgrade", b"\xff"),
        ("upgrade", b"BEEP\t"),
    ])));
}

#[test]
fn an_upgrade_needs_a_connection_that_can_be_upgraded() {
    let asking = headers(&[("connection", b"upgrade"), ("upgrade", b"BEEP")]);
    assert_eq!(check_upgrade(&asking, true), Ok(()));
    assert_eq!(
        check_upgrade(&asking, false),
        Err(NotAnUpgrade {
            reason: "this connection cannot be upgraded"
        })
    );
    assert_eq!(
        check_upgrade(&headers(&[]), false),
        Err(NotAnUpgrade {
            reason: "expected Connection: Upgrade and Upgrade: BEEP"
        })
    );
}

#[test]
fn upgrade_errors_describe_themselves() {
    let said = [
        (Error::Io("reset".to_owned()), "transport error: reset"),
        (Error::Session("over".to_owned()), "session error: over"),
        (
            Error::NotUpgraded { status: Some(200) },
            "expected 101 Switching Protocols, got 200",
        ),
        (
            Error::NotUpgraded { status: None },
            "expected 101 Switching Protocols, got an unreadable status",
        ),
        (
            Error::MalformedResponse { reason: "why" },
            "malformed HTTP response: why",
        ),
        (
            Error::WrongProtocol,
            "the peer upgraded to something other than BEEP",
        ),
    ];
    for (error, text) in said {
        assert_eq!(error.message(), text);
    }
}

#[test]
fn the_answer_is_taken() {
    let (status, fields) = answer();
    assert_eq!(status, 101);
    assert_eq!(fields, [("connection", "upgrade"), ("upgrade", "BEEP")]);

    let mut head = format!("HTTP/1.1 {status} Switching Protocols\r\ndate: today\r\n");
    for (name, value) in fields {
        head.push_str(&format!("{name}: {value}\r\n"));
    }
    head.push_str("\r\n");
    assert_eq!(check_switching_protocols(&head), Ok(()));
}
