//! Telling protocols apart on one port, and what a listener's greeting offers.

use bytes::BytesMut;
use vortice::codec::Decoder;
use vortice::greeting::Greeting;
use vortice::tls::looks_like_tls;
use vortice::ws::server::{advertise, is_handshake};

#[test]
fn tells_a_handshake_from_plain_beep() {
    assert!(is_handshake(b"GET / HTTP/1.1\r\n"));
    assert!(is_handshake(b"GET "));
    assert!(!is_handshake(b"GET"));
    for beginning in ["MSG ", "RPY 0 0 . 0 0", "ERR ", "ANS ", "NUL ", "SEQ 0 0 4096"] {
        assert!(!is_handshake(beginning.as_bytes()));
    }
}

/// What is not BEEP is refused by the decoder or waited on, never read as a frame.
#[test]
fn what_opens_otherwise_is_no_frame() {
    let openings: [&[u8]; 3] = [
        b"GET / HTTP/1.1\r\nHost: h\r\n\r\n",
        b"GET 0 0 . 0 0\r\nEND\r\n",
        &[0x16, 0x03, 0x01, 0x00, 0x0d, 0x0a],
    ];
    for opening in openings {
        let mut buffer = BytesMut::from(opening);
        assert!(!matches!(Decoder::new().decode(&mut buffer), Ok(Some(_))));
        assert!(is_handshake(opening) != looks_like_tls(opening));
    }
}

#[test]
fn a_greeting_offers_what_is_served_in_order_and_once() {
    let greeting = Greeting::new().with_profile("urn:m").with_features("f");
    let uris = ["urn:z", "urn:a", "urn:m", "urn:a", "urn:ab"].map(str::to_owned);
    let offered = advertise(greeting, &uris);
    assert_eq!(offered.profiles(), ["urn:m", "urn:a", "urn:ab", "urn:z"]);
    assert_eq!(offered.features(), Some("f"));

    assert!(advertise(Greeting::new(), &[]).profiles().is_empty());
}
