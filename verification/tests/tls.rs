//! The TLS profile.

use vortice::greeting::Greeting;
use vortice::management::code;
use vortice::management::{Encoding, ErrorReply, Profile, Start};
use vortice::session::{Config, Role};
use vortice::tls::{
    acceptor, alpn_names, chain_from, check_server_name, client_config, key_from, looks_like_tls,
    may_begin, offer, proceeding, read_certificates, read_key, server_config, tuning_failed,
    with_client_alpn, with_server_alpn, Error, Failure, PrivateKey, TlsProfile, BEEP_ALPN, PROCEED,
    PROFILE_URI, READY,
};

#[test]
fn tells_a_tls_handshake_from_what_else_may_arrive() {
    // TLS 1.0 through 1.3 all begin their handshake record the same way.
    assert!(looks_like_tls(&[0x16, 0x03, 0x01]));
    assert!(looks_like_tls(&[0x16, 0x03, 0x03]));

    // The six BEEP frame keywords, and an HTTP request line.
    for beginning in [
        &b"MSG 1 0 . 0 5"[..],
        b"RPY 0 0 . 0 0",
        b"ERR 1 0 . 0 0",
        b"ANS 1 0 . 0 0 0",
        b"NUL 1 0 . 0 0",
        b"SEQ 0 0 4096",
        b"GET / HTTP/1.1",
    ] {
        assert!(
            !looks_like_tls(beginning),
            "{:?} should not be read as TLS",
            String::from_utf8_lossy(beginning)
        );
    }
}

#[test]
fn refuses_to_guess_from_too_little() {
    assert!(!looks_like_tls(&[]));
    assert!(!looks_like_tls(&[0x16]));
}

#[test]
fn an_offer_is_taken_up_and_proceeds() {
    let greeting = Greeting::new().with_profile("urn:x").with_profile(PROFILE_URI);
    let offered = offer(&greeting).expect("offered");
    assert_eq!(offered.uri, PROFILE_URI);
    assert_eq!(offered.encoding, Encoding::Literal);
    assert_eq!(offered.content.as_deref(), Some(READY));

    let profile = TlsProfile::new(Config::new(Role::Listener).with_profile("urn:after"));
    let accepted = profile
        .accept(PROFILE_URI, &Start::new(1, offered))
        .expect("accepted");
    assert_eq!(accepted.uri, PROFILE_URI);
    assert_eq!(accepted.content.as_deref(), Some(PROCEED));
    assert_eq!(proceeding(&accepted), Ok(()));
    assert_eq!(may_begin(&accepted, "localhost"), Ok(()));
    assert!(profile.upgrades_transport());
    assert!(profile.after().greeting.advertises("urn:after"));
}

#[test]
fn a_listener_that_does_not_offer_tls_says_so() {
    assert_eq!(offer(&Greeting::new()), Err(Error::NotOffered));
}

/// The listener requires `<ready />` on the start.
#[test]
fn a_start_without_the_piggyback_is_refused() {
    let profile = TlsProfile::new(Config::new(Role::Listener));
    let bare = Start::new(1, Profile::new(PROFILE_URI));
    let reply = profile.accept(PROFILE_URI, &bare).expect_err("no piggyback");
    assert_eq!(reply.code, code::TRANSACTION_FAILED);
    assert_eq!(
        reply.text.as_deref(),
        Some("the TLS profile expects <ready /> piggybacked on the start")
    );
    // Only the first offer of the profile counts, and only an offer of it.
    let late = Start::new(1, Profile::new("urn:x").with_content(READY))
        .offering(Profile::new(PROFILE_URI))
        .offering(Profile::new(PROFILE_URI).with_content(READY));
    assert!(profile.accept(PROFILE_URI, &late).is_err());
}

#[test]
fn anything_but_proceed_stops_the_tuning() {
    let refused = Profile::new(PROFILE_URI).with_content("<error />");
    assert_eq!(
        proceeding(&refused),
        Err(Error::NotProceeding("<error />".to_owned()))
    );
    let silent = Profile::new(PROFILE_URI);
    assert_eq!(
        may_begin(&silent, "not a name"),
        Err(Error::NotProceeding("nothing at all".to_owned()))
    );
    let willing = Profile::new(PROFILE_URI).with_content(PROCEED);
    assert_eq!(
        may_begin(&willing, "not a name"),
        Err(Error::Certificate(
            "\"not a name\" is not a valid server name".to_owned()
        ))
    );
}

#[test]
fn a_server_is_named_by_a_dns_name_or_an_address() {
    for name in ["localhost", "beep.example.com", "127.0.0.1", "::1"] {
        assert_eq!(check_server_name(name), Ok(()));
    }
    for name in ["", "a b", "exa_mple..com", "-"] {
        assert!(matches!(
            check_server_name(name),
            Err(Error::Certificate(_))
        ));
    }
}

#[test]
fn says_what_ended_the_tuning() {
    let refusal = ErrorReply::new(code::ACTION_NOT_TAKEN);
    assert_eq!(
        tuning_failed(
            Some("bad certificate".to_owned()),
            Failure::Other("io".to_owned())
        ),
        Error::Handshake("bad certificate".to_owned())
    );
    assert_eq!(
        tuning_failed(None, Failure::Refused(refusal.clone())),
        Error::Refused(refusal)
    );
    assert_eq!(
        tuning_failed(None, Failure::Other("over".to_owned())),
        Error::Session("over".to_owned())
    );
}

#[test]
fn tls_errors_describe_themselves() {
    let said = [
        (
            Error::NotOffered,
            "the peer's greeting does not offer the TLS profile",
        ),
        (
            Error::Refused(ErrorReply::new(550).with_text("no \"way\"", Some("en".to_owned()))),
            "the peer refused the TLS channel: ErrorReply { code: 550, lang: Some(\"en\"), \
             text: Some(\"no \\\"way\\\"\") }",
        ),
        (
            Error::Refused(ErrorReply::new(421)),
            "the peer refused the TLS channel: ErrorReply { code: 421, lang: None, text: None }",
        ),
        (
            Error::NotProceeding("<error\n/>".to_owned()),
            "the peer answered \"<error\\n/>\" instead of proceeding",
        ),
        (
            Error::Handshake("why".to_owned()),
            "the TLS handshake failed: why",
        ),
        (
            Error::Session("over".to_owned()),
            "beep session failed: over",
        ),
        (Error::Certificate("as it is".to_owned()), "as it is"),
    ];
    for (error, text) in said {
        assert_eq!(error.message(), text);
        if let Error::Refused(reply) = error {
            assert_eq!(
                text,
                format!("the peer refused the TLS channel: {reply:?}")
            );
        }
    }
}

#[test]
fn alpn_names_are_octets() {
    assert_eq!(
        alpn_names(&[BEEP_ALPN, "http/1.1"]),
        [b"beep".to_vec(), b"http/1.1".to_vec()]
    );
}

/// A self-signed certificate for `localhost`.
const CERTIFICATE: &str = "\
MIIBfjCCASWgAwIBAgIUXMUb/X37mGQkc1/ad7TplWvP5oIwCgYIKoZIzj0EAwIwFDESMBAGA1UE\
AwwJbG9jYWxob3N0MCAXDTI2MTExNTE2MjUwNloYDzIxMjYxMDIyMTYyNTA2WjAUMRIwEAYDVQQD\
DAlsb2NhbGhvc3QwWTATBgcqhkjOPQIBBggqhkjOPQMBBwNCAAT1BVKceUHdAWPgfqiKroaai3gY\
vf5hE+34BlgJRyuP08g2EHfPCBr9B881weEdA3Yxz3pz1fvs8rawE4mIv54so1MwUTAdBgNVHQ4E\
FgQUoyFchAwIhnYJBphSyVjVpETMO3MwHwYDVR0jBBgwFoAUoyFchAwIhnYJBphSyVjVpETMO3Mw\
DwYDVR0TAQH/BAUwAwEB/zAKBggqhkjOPQQDAgNHADBEAiBgSq+dX8kuZ6TlyaeOMnsfMMteMiSY\
Ldb/YiyNkS7pwwIgceE6BaF5Z4e+zGFJI9OAHbYOEm7WqOjdHN6NKiDvXjo=";

/// The private key of that certificate, which is used nowhere else.
const KEY: &str = "\
MIGHAgEAMBMGByqGSM49AgEGCCqGSM49AwEHBG0wawIBAQQgKFsc6h9ykx2zG18vbJTn5wa6AX9m\
1d519pSA/sY4VEKhRANCAAT1BVKceUHdAWPgfqiKroaai3gYvf5hE+34BlgJRyuP08g2EHfPCBr9\
B881weEdA3Yxz3pz1fvs8rawE4mIv54s";

/// A PEM section of a kind, holding the octets that the Base64 text stands for.
fn pem(kind: &str, base64: &str) -> Vec<u8> {
    format!("-----BEGIN {kind}-----\n{base64}\n-----END {kind}-----\n").into_bytes()
}

#[test]
fn reads_the_certificates_of_a_pem_text_in_order() {
    let mut text = pem("CERTIFICATE", "AQID");
    text.extend_from_slice(&pem("PUBLIC KEY", "CQkJ"));
    text.extend_from_slice(b"anything between sections\n");
    text.extend_from_slice(&pem("CERTIFICATE", "BAU="));
    assert_eq!(
        read_certificates(&text),
        Ok(vec![vec![1, 2, 3], vec![4, 5]])
    );
}

#[test]
fn says_why_there_is_no_certificate() {
    let missing = Error::Certificate("no certificate found in the PEM given".to_owned());
    assert_eq!(read_certificates(b""), Err(missing.clone()));
    assert_eq!(read_certificates(&pem("PUBLIC KEY", "CQkJ")), Err(missing));
    let unreadable = read_certificates(&pem("CERTIFICATE", "*"));
    assert!(
        matches!(unreadable, Err(Error::Certificate(reason)) if reason.starts_with("unreadable certificate: "))
    );
    assert_eq!(
        chain_from(Err("why".to_owned())),
        Err(Error::Certificate("unreadable certificate: why".to_owned()))
    );
}

#[test]
fn reads_a_key_in_any_encoding() {
    let mut first = pem("CERTIFICATE", "AQID");
    first.extend_from_slice(&pem("PRIVATE KEY", "Bwg="));
    assert!(matches!(read_key(&first), Ok(PrivateKey::Pkcs8(der)) if der == [7, 8]));
    assert!(
        matches!(read_key(&pem("RSA PRIVATE KEY", "Bwg=")), Ok(PrivateKey::Pkcs1(der)) if der == [7, 8])
    );
    assert!(
        matches!(read_key(&pem("EC PRIVATE KEY", "Bwg=")), Ok(PrivateKey::Sec1(der)) if der == [7, 8])
    );
}

#[test]
fn says_why_there_is_no_key() {
    assert!(
        matches!(read_key(b""), Err(Error::Certificate(reason)) if reason == "no private key found in the PEM given")
    );
    assert!(
        matches!(read_key(&pem("PRIVATE KEY", "*")), Err(Error::Certificate(reason)) if reason.starts_with("unreadable private key: "))
    );
    assert!(
        matches!(key_from(Err("why".to_owned())), Err(Error::Certificate(reason)) if reason == "unreadable private key: why")
    );
    assert!(matches!(
        key_from(Ok(Some(PrivateKey::Sec1(vec![1])))),
        Ok(PrivateKey::Sec1(der)) if der == [1]
    ));
}

#[test]
fn a_configuration_needs_what_it_is_built_from() {
    let certificates = pem("CERTIFICATE", "AQID");
    let key = pem("PRIVATE KEY", "Bwg=");
    let reason = |result: Result<(), Error>| match result {
        Err(Error::Certificate(reason)) => reason,
        other => panic!("expected a certificate error, got {other:?}"),
    };
    assert_eq!(
        reason(server_config(b"", &key).map(|_| ())),
        "no certificate found in the PEM given"
    );
    assert_eq!(
        reason(server_config(&certificates, b"").map(|_| ())),
        "no private key found in the PEM given"
    );
    assert!(reason(server_config(&certificates, &key).map(|_| ()))
        .starts_with("certificate and key do not go together: "));
    assert_eq!(
        reason(client_config(b"").map(|_| ())),
        "no certificate found in the PEM given"
    );
    assert!(reason(client_config(&certificates).map(|_| ())).starts_with("not a usable root: "));
}

#[test]
fn configurations_are_built_from_what_goes_together() {
    let certificates = pem("CERTIFICATE", CERTIFICATE);
    let key = pem("PRIVATE KEY", KEY);
    let server = server_config(&certificates, &key).expect("a server configuration");
    assert!(server.alpn_protocols.is_empty());
    let client = client_config(&certificates).expect("a client configuration");
    assert!(client.alpn_protocols.is_empty());
    assert!(client.enable_sni);
}

#[test]
fn configurations_carry_the_protocols_they_are_given() {
    let certificates = pem("CERTIFICATE", CERTIFICATE);
    let key = pem("PRIVATE KEY", KEY);

    let client = client_config(&certificates).expect("a client configuration");
    let client = with_client_alpn(client, &[BEEP_ALPN, "h2"]);
    assert_eq!(client.alpn_protocols, [b"beep".to_vec(), b"h2".to_vec()]);
    let client = with_client_alpn(client, &["h2"]);
    assert_eq!(client.alpn_protocols, [b"h2".to_vec()]);

    let server = server_config(&certificates, &key).expect("a server configuration");
    let server = with_server_alpn(server, &["h2", BEEP_ALPN]);
    assert_eq!(server.alpn_protocols, [b"h2".to_vec(), b"beep".to_vec()]);
    let accepting = acceptor(server);
    assert_eq!(
        accepting.config().alpn_protocols,
        [b"h2".to_vec(), b"beep".to_vec()]
    );
}
