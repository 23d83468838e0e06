//! Channel management messages.

use vortice::error::Error;
use vortice::management::code;
use vortice::management::{Close, Encoding, ErrorReply, Message, Profile, Start};
use vortice::mime;

/// Strips the MIME headers so tests can compare the XML alone.
fn xml_of(message: &Message) -> String {
    let payload = message.to_payload();
    let (_, body) = mime::split(&payload);
    String::from_utf8(body.to_vec()).unwrap()
}

fn round_trip(message: &Message) -> Message {
    Message::from_payload(&message.to_payload()).unwrap()
}

#[test]
fn renders_a_start_the_way_libvortex_does() {
    let message = Message::Start(Start::new(1, Profile::new("urn:example:echo")));
    assert_eq!(
        xml_of(&message),
        "<start number='1'>\r\n   <profile uri='urn:example:echo' />\r\n</start>\r\n"
    );
}

#[test]
fn renders_a_start_with_a_server_name() {
    let message = Message::Start(
        Start::new(3, Profile::new("urn:example:echo")).with_server_name("beep.example.com"),
    );
    assert_eq!(
        xml_of(&message),
        "<start number='3' serverName='beep.example.com'>\r\n   \
         <profile uri='urn:example:echo' />\r\n</start>\r\n"
    );
}

#[test]
fn renders_piggybacked_content_inside_cdata() {
    let message = Message::Start(Start::new(
        1,
        Profile::new("urn:example:echo").with_content("hello"),
    ));
    assert_eq!(
        xml_of(&message),
        "<start number='1'>\r\n   \
         <profile uri='urn:example:echo'><![CDATA[hello]]></profile>\r\n</start>\r\n"
    );
}

#[test]
fn renders_the_base64_encoding_attribute() {
    let message =
        Message::Profile(Profile::new("urn:example:echo").with_base64_content("aGk="));
    assert_eq!(
        xml_of(&message),
        "<profile uri='urn:example:echo' encoding='base64'><![CDATA[aGk=]]></profile>\r\n"
    );
}

#[test]
fn renders_close_ok_and_error() {
    assert_eq!(
        xml_of(&Message::Close(Close::new(1))),
        "<close number='1' code='200' />\r\n"
    );
    assert_eq!(xml_of(&Message::Okay), "<ok />");
    assert_eq!(
        xml_of(&Message::Error(ErrorReply::new(
            code::REQUESTED_ACTION_NOT_TAKEN
        ))),
        "<error code='550' />\r\n"
    );
}

#[test]
fn renders_text_and_language() {
    let message = Message::Error(
        ErrorReply::new(550).with_text("profile not supported", Some("en-US".into())),
    );
    assert_eq!(
        xml_of(&message),
        "<error code='550' xml:lang='en-US'>profile not supported</error>\r\n"
    );
}

#[test]
fn round_trips_every_message() {
    let messages = [
        Message::Start(Start::new(1, Profile::new("urn:a"))),
        Message::Start(
            Start::new(2, Profile::new("urn:a").with_content("data"))
                .with_server_name("host")
                .offering(Profile::new("urn:b").with_base64_content("aGk=")),
        ),
        Message::Close(Close::new(0).with_code(200)),
        Message::Close(Close::new(7).with_text("done", Some("es-ES".into()))),
        Message::Profile(Profile::new("urn:a")),
        Message::Profile(Profile::new("urn:a").with_content("piggyback")),
        Message::Okay,
        Message::Error(ErrorReply::new(421)),
        Message::Error(ErrorReply::new(550).with_text("nope", None)),
    ];
    for message in messages {
        assert_eq!(
            round_trip(&message),
            message,
            "round trip changed the message"
        );
    }
}

#[test]
fn parses_what_libvortex_emits_with_its_extra_whitespace() {
    let cases: [(&[u8], Message); 3] = [
        (
            b"<close number='1' code='200' xml:lang='es-ES'  />\r\n",
            Message::Close(Close {
                number: 1,
                code: 200,
                lang: Some("es-ES".into()),
                text: None,
            }),
        ),
        (
            b"<error code='550' >boom</error>\r\n",
            Message::Error(ErrorReply {
                code: 550,
                lang: None,
                text: Some("boom".into()),
            }),
        ),
        (
            b"<profile uri='urn:a' ><![CDATA[c]]></profile>\r\n",
            Message::Profile(Profile {
                uri: "urn:a".into(),
                encoding: Encoding::Literal,
                content: Some("c".into()),
            }),
        ),
    ];
    for (raw, expected) in cases {
        assert_eq!(Message::from_xml(raw).unwrap(), expected);
    }
}

#[test]
fn accepts_a_start_offering_several_profiles() {
    let raw = b"<start number='1'>\r\n   <profile uri='urn:a' />\r\n   \
                <profile uri='urn:b' />\r\n</start>\r\n";
    let Message::Start(start) = Message::from_xml(raw).unwrap() else {
        panic!("expected a start");
    };
    assert_eq!(start.profiles.len(), 2);
    assert_eq!(start.profiles[1].uri, "urn:b");
}

#[test]
fn escapes_markup_in_attributes_and_text() {
    let message =
        Message::Start(Start::new(1, Profile::new("urn:a&b<c>")).with_server_name("h'ost\""));
    let Message::Start(parsed) = round_trip(&message) else {
        panic!("expected a start");
    };
    assert_eq!(parsed.profiles[0].uri, "urn:a&b<c>");
    assert_eq!(parsed.server_name.as_deref(), Some("h'ost\""));
}

#[test]
fn management_rejects_a_payload_that_is_not_beep_xml() {
    assert_eq!(
        Message::from_payload(b"<ok />").unwrap_err(),
        Error::NotBeepXml
    );
}

#[test]
fn rejects_an_unknown_root_element() {
    assert_eq!(
        Message::from_xml(b"<greeting />").unwrap_err(),
        Error::UnexpectedElement
    );
}

#[test]
fn rejects_missing_and_malformed_attributes() {
    assert_eq!(
        Message::from_xml(b"<start />").unwrap_err(),
        Error::MissingField { field: "number" }
    );
    assert_eq!(
        Message::from_xml(b"<close number='1' />").unwrap_err(),
        Error::MissingField { field: "code" }
    );
    assert_eq!(
        Message::from_xml(b"<error code='abc' />").unwrap_err(),
        Error::InvalidDigit { field: "code" }
    );
    assert_eq!(
        Message::from_xml(b"<start number='1'><profile /></start>").unwrap_err(),
        Error::Xml {
            reason: "profile element without a uri attribute"
        }
    );
    assert_eq!(
        Message::from_xml(b"<profile uri='u' encoding='rot13' />").unwrap_err(),
        Error::Xml {
            reason: "encoding must be 'none' or 'base64'"
        }
    );
}

#[test]
fn treats_an_absent_encoding_as_none() {
    let Message::Profile(profile) = Message::from_xml(b"<profile uri='u' />").unwrap() else {
        panic!("expected a profile");
    };
    assert_eq!(profile.encoding, Encoding::Literal);
    assert_eq!(Encoding::default(), Encoding::Literal);
}

/// Whatever is read is read again from what it renders to, the end of a CDATA section in content
/// as well.
#[test]
fn parsed_messages_survive_rendering() {
    let documents: [&[u8]; 8] = [
        b"<start number='1'><profile uri='a'> x </profile><profile uri='b' encoding='none' /></start>",
        b"<close number='3' code='200' xml:lang='en'> bye </close>",
        b"<profile uri='&lt;&amp;&gt;'>c</profile>",
        b"<ok/>",
        b"<error code='550'>  </error>",
        b"<profile uri='u'>a]]&gt;b</profile>",
        b"<start number='1'><profile uri='u'>]]&gt;]]]]&gt;&gt;</profile></start>",
        b"<profile uri='u'><![CDATA[x]]]]><![CDATA[>y]]></profile>",
    ];
    for document in documents {
        let message = Message::from_xml(document).unwrap();
        assert_eq!(round_trip(&message), message);
    }

    let cut = Message::Profile(Profile::new("u").with_content("a]]>b"));
    assert_eq!(
        Message::from_xml(b"<profile uri='u'>a]]&gt;b</profile>").unwrap(),
        cut
    );
    assert_eq!(round_trip(&cut), cut);
    assert!(String::from_utf8(cut.to_payload().to_vec())
        .unwrap()
        .ends_with("<profile uri='u'><![CDATA[a]]]]><![CDATA[>b]]></profile>\r\n"));
}

#[test]
fn numbers_its_reply_codes() {
    assert_eq!(code::SUCCESS, 200);
    assert_eq!(code::SERVICE_NOT_AVAILABLE, 421);
    assert_eq!(code::ACTION_NOT_TAKEN, 450);
    assert_eq!(code::REQUESTED_ACTION_NOT_TAKEN, 550);
    assert_eq!(code::TRANSACTION_FAILED, 554);
}
