//! Greetings.

use bytes::BytesMut;
use vortice::codec::Decoder;
use vortice::error::Error;
use vortice::frame::{DataFrame, FrameKind};
use vortice::greeting::Greeting;

#[test]
fn renders_an_empty_greeting_the_way_libvortex_does() {
    let payload = Greeting::new().to_payload();
    assert_eq!(
        &payload[..],
        b"Content-Type: application/beep+xml\r\n\r\n<greeting />\r\n"
    );
}

#[test]
fn renders_advertised_profiles_the_way_libvortex_does() {
    let payload = Greeting::new()
        .with_profile("urn:example:one")
        .with_profile("urn:example:two")
        .to_payload();
    assert_eq!(
        &payload[..],
        b"Content-Type: application/beep+xml\r\n\r\n\
          <greeting>\r\n   <profile uri='urn:example:one' />\r\n\
          \x20  <profile uri='urn:example:two' />\r\n</greeting>\r\n"
    );
}

#[test]
fn renders_the_negotiation_attributes_in_libvortex_order() {
    let payload = Greeting::new()
        .with_features("x-foo")
        .with_localize("es-ES")
        .to_payload();
    assert_eq!(
        &payload[..],
        b"Content-Type: application/beep+xml\r\n\r\n\
          <greeting features='x-foo' localize='es-ES' />\r\n"
    );
}

#[test]
fn round_trips_through_a_frame_and_the_decoder() {
    let greeting = Greeting::new()
        .with_profile("http://iana.org/beep/transient/vortex-regression")
        .with_profile("http://iana.org/beep/transient/vortex-regression/zero")
        .with_localize("es-ES");

    let mut buf = BytesMut::new();
    greeting.to_frame(0).unwrap().encode(&mut buf);

    let frame = Decoder::new().decode(&mut buf).unwrap().unwrap();
    let parsed = Greeting::from_frame(frame.as_data().unwrap()).unwrap();
    assert_eq!(parsed, greeting);
    assert!(parsed.advertises("http://iana.org/beep/transient/vortex-regression/zero"));
    assert!(!parsed.advertises("urn:absent"));
}

#[test]
fn parses_a_greeting_produced_by_libvortex() {
    // Exactly the octets __vortex_greetings_build_message emits for one profile.
    let payload = b"Content-Type: application/beep+xml\r\n\r\n\
                    <greeting>\r\n   <profile uri='urn:example:echo' />\r\n</greeting>\r\n";
    let greeting = Greeting::from_payload(payload).unwrap();
    assert_eq!(greeting.profiles(), ["urn:example:echo"]);
    assert_eq!(greeting.features(), None);
}

#[test]
fn parses_a_greeting_with_no_profiles() {
    let payload = b"Content-Type: application/beep+xml\r\n\r\n<greeting />\r\n";
    assert!(
        Greeting::from_payload(payload)
            .unwrap()
            .profiles()
            .is_empty()
    );
}

#[test]
fn escapes_markup_in_profile_uris() {
    let greeting = Greeting::new().with_profile("urn:a&b<c>'d\"");
    let parsed = Greeting::from_payload(&greeting.to_payload()).unwrap();
    assert_eq!(parsed.profiles(), ["urn:a&b<c>'d\""]);
}

#[test]
fn greeting_rejects_a_payload_that_is_not_beep_xml() {
    assert_eq!(
        Greeting::from_payload(b"<greeting />").unwrap_err(),
        Error::NotBeepXml
    );
    assert_eq!(
        Greeting::from_payload(b"Content-Type: text/plain\r\n\r\n<greeting />").unwrap_err(),
        Error::NotBeepXml
    );
}

#[test]
fn accepts_the_content_type_in_any_case() {
    let payload = b"content-type: Application/BEEP+XML\r\n\r\n<greeting />";
    assert!(Greeting::from_payload(payload).is_ok());
}

#[test]
fn rejects_a_root_element_that_is_not_a_greeting() {
    let payload = b"Content-Type: application/beep+xml\r\n\r\n<error code='550' />";
    assert_eq!(
        Greeting::from_payload(payload).unwrap_err(),
        Error::UnexpectedElement
    );
}

#[test]
fn rejects_frames_that_do_not_have_the_greeting_shape() {
    let payload = Greeting::new().to_payload();
    let cases: [(DataFrame, &str); 4] = [
        (
            DataFrame::new(FrameKind::Msg, 0, 0, 0, payload.clone()).unwrap(),
            "expected an RPY frame",
        ),
        (
            DataFrame::new(FrameKind::Rpy, 1, 0, 0, payload.clone()).unwrap(),
            "expected channel 0",
        ),
        (
            DataFrame::new(FrameKind::Rpy, 0, 1, 0, payload.clone()).unwrap(),
            "expected message number 0",
        ),
        (
            DataFrame::new(FrameKind::Rpy, 0, 0, 1, payload.clone()).unwrap(),
            "expected sequence number 0",
        ),
    ];
    for (frame, reason) in cases {
        assert_eq!(
            Greeting::from_frame(&frame).unwrap_err(),
            Error::NotAGreeting { reason }
        );
    }

    let partial = DataFrame::new(FrameKind::Rpy, 0, 0, 0, payload)
        .unwrap()
        .with_more(true);
    assert_eq!(
        Greeting::from_frame(&partial).unwrap_err(),
        Error::NotAGreeting {
            reason: "expected a complete frame"
        }
    );
}

/// A greeting comes back out of the payload it is rendered into.
#[test]
fn greetings_round_trip() {
    let greetings = [
        Greeting::new(),
        Greeting::default().with_features("a b"),
        Greeting::new().with_localize("<&>").with_profile(""),
        Greeting::new()
            .with_profile("urn:b")
            .with_profile("urn:a")
            .with_profile("urn:b")
            .with_features("'")
            .with_localize("\""),
    ];
    for greeting in greetings {
        let parsed = Greeting::from_payload(&greeting.to_payload()).unwrap();
        assert_eq!(parsed, greeting);
        assert_eq!(parsed.features(), greeting.features());
        assert_eq!(parsed.localize(), greeting.localize());
    }
}
