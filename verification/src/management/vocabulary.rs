//! What the elements of channel management say, and how they are written.

use crate::decimal;
use crate::error::Error;
use crate::management;
use crate::management::{
    CloseView, Encoding, ErrorReplyView, ManagementView, ProfileView, StartView,
};
use crate::mime;
use crate::text;
use crate::xml;
use crate::xml::ElementView;
use vstd::prelude::*;
use vstd::utf8;

verus! {

/// The encoding of a profile's content is Base64 exactly where the attribute is there and reads
/// `base64`. Where it is missing or reads `none` the content is literal, and where it reads
/// anything else the element is refused.
pub proof fn law_encodings_are_announced(value: Seq<char>)
    ensures
        management::encoding_of(None) == Ok::<Encoding, Error>(Encoding::Literal),
        management::encoding_of(Some(value)) == Ok::<Encoding, Error>(Encoding::Base64) <==> value
            == seq!['b', 'a', 's', 'e', '6', '4'],
        management::encoding_of(Some(value)) == Ok::<Encoding, Error>(Encoding::Literal) <==> value
            == seq!['n', 'o', 'n', 'e'],
        management::encoding_of(Some(value)) is Err <==> value != seq![
            'b',
            'a',
            's',
            'e',
            '6',
            '4',
        ] && value != seq!['n', 'o', 'n', 'e'],
{
    reveal_strlit("none");
    reveal_strlit("base64");
    assert("none"@ =~= seq!['n', 'o', 'n', 'e']);
    assert("base64"@ =~= seq!['b', 'a', 's', 'e', '6', '4']);
    assert("none"@.len() != "base64"@.len());
}

/// A `<profile>` is read where it has a URI and announces an encoding that is known. It is that
/// URI, and its content, if it holds anything, is its text. Its encoding is Base64 exactly where
/// its encoding attribute is there and reads `base64`; where the attribute is missing or reads
/// `none` it is the literal encoding.
pub proof fn law_profiles_are_what_their_element_says(e: ElementView)
    ensures
        match ProfileView::of_element(e) {
            Ok(p) => {
                &&& e.attr("uri"@) == Some(p.uri)
                &&& p.encoding == Encoding::Base64 <==> e.attr("encoding"@) == Some(
                    seq!['b', 'a', 's', 'e', '6', '4'],
                )
                &&& p.encoding == Encoding::Literal <==> (e.attr("encoding"@) is None || e.attr(
                    "encoding"@,
                ) == Some(seq!['n', 'o', 'n', 'e']))
                &&& p.content is None <==> e.text.len() == 0
                &&& p.content matches Some(content) ==> content == e.text
            },
            Err(_) => e.attr("uri"@) is None || (e.attr("encoding"@) is Some && e.attr(
                "encoding"@,
            )->0 != seq!['b', 'a', 's', 'e', '6', '4'] && e.attr("encoding"@)->0 != seq![
                'n',
                'o',
                'n',
                'e',
            ]),
        },
{
    if let Some(value) = e.attr("encoding"@) {
        law_encodings_are_announced(value);
    }
}

/// A number is read from an attribute where it is there and holds decimal digits alone, at least
/// one, that write a number of thirty-two bits. What is wrong names the attribute.
pub proof fn law_numbers_stand_in_attributes(e: ElementView, name: &'static str)
    ensures
        management::number_attr(e, name) == (match e.attr(name@) {
            None => Err::<u32, Error>(Error::MissingField { field: name }),
            Some(raw) => if raw.len() == 0 || xml::digits_value(raw, 10) is None {
                Err(Error::InvalidDigit { field: name })
            } else if xml::digits_value(raw, 10)->0 > 0xffff_ffff {
                Err(Error::ValueOutOfRange { field: name, max: 0xffff_ffff })
            } else {
                Ok(xml::digits_value(raw, 10)->0 as u32)
            },
        }),
{
}

/// The profiles of a list are those of its elements, one for one and in order. If one is wrong
/// there are none.
pub proof fn law_profiles_are_read_in_order(children: Seq<ElementView>)
    ensures
        match management::profiles_of(children) {
            Ok(profiles) => profiles.len() == children.len() && forall|i: int|
                0 <= i < children.len() ==> ProfileView::of_element(#[trigger] children[i]) == Ok::<
                    ProfileView,
                    Error,
                >(profiles[i]),
            Err(e) => exists|i: int|
                0 <= i < children.len() && ProfileView::of_element(#[trigger] children[i]) == Err::<
                    ProfileView,
                    Error,
                >(e) && forall|j: int|
                    0 <= j < i ==> ProfileView::of_element(#[trigger] children[j]) is Ok,
        },
    decreases children.len(),
{
    if children.len() > 0 {
        let init = children.drop_last();
        law_profiles_are_read_in_order(init);
        let last = children.len() - 1;
        match management::profiles_of(children) {
            Ok(profiles) => {
                assert forall|i: int| 0 <= i < children.len() implies ProfileView::of_element(
                    #[trigger] children[i],
                ) == Ok::<ProfileView, Error>(profiles[i]) by {
                    if i < last {
                        assert(init[i] == children[i]);
                    }
                }
            },
            Err(e) => {
                match management::profiles_of(init) {
                    Err(f) => {
                        let i = choose|i: int|
                            0 <= i < init.len() && ProfileView::of_element(#[trigger] init[i])
                                == Err::<ProfileView, Error>(f) && forall|j: int|
                                0 <= j < i ==> ProfileView::of_element(#[trigger] init[j]) is Ok;
                        assert(children[i] == init[i]);
                        assert forall|j: int| 0 <= j < i implies ProfileView::of_element(
                            #[trigger] children[j],
                        ) is Ok by {
                            assert(init[j] == children[j]);
                        }
                    },
                    Ok(profiles) => {
                        assert(ProfileView::of_element(children[last]) == Err::<
                            ProfileView,
                            Error,
                        >(e));
                        assert forall|j: int| 0 <= j < last implies ProfileView::of_element(
                            #[trigger] children[j],
                        ) is Ok by {
                            assert(init[j] == children[j]);
                        }
                    },
                }
            },
        }
    }
}

/// Whether a text is another without the white space at its ends, or nothing where that is all
/// there is.
pub open spec fn is_trimmed(text: Option<Seq<char>>, whole: Seq<char>) -> bool {
    let white = |c: char| text::is_white(c);
    match text {
        None => forall|i: int| 0 <= i < whole.len() ==> white(#[trigger] whole[i]),
        Some(t) => {
            &&& t.len() > 0
            &&& !white(t[0]) && !white(t.last())
            &&& exists|k: int|
                {
                    &&& 0 <= k && k + t.len() <= whole.len()
                    &&& t == #[trigger] whole.subrange(k, k + t.len())
                    &&& forall|i: int|
                        0 <= i < whole.len() && !(k <= i < k + t.len()) ==> white(
                            #[trigger] whole[i],
                        )
                }
        },
    }
}

/// The text of an element is what stands in it, without the white space at its ends; where that is
/// all there is, it has none.
pub proof fn law_explanations_are_trimmed(e: ElementView)
    ensures
        is_trimmed(management::element_text(e), e.text),
{
    let white = |c: char| text::is_white(c);
    let whole = e.text;
    let (a, b) = text::law_trimming_drops_the_ends_alone(whole, white);
    let t = text::trimmed_white(whole);
    assert(t == whole.subrange(a, b));
    assert(b == a + t.len());
}

/// Distinct names of elements.
proof fn lemma_names_differ()
    ensures
        "start"@ != "close"@,
        "start"@ != "profile"@,
        "start"@ != "ok"@,
        "start"@ != "error"@,
        "close"@ != "profile"@,
        "close"@ != "ok"@,
        "close"@ != "error"@,
        "profile"@ != "ok"@,
        "profile"@ != "error"@,
        "ok"@ != "error"@,
{
    reveal_strlit("start");
    reveal_strlit("close");
    reveal_strlit("profile");
    reveal_strlit("ok");
    reveal_strlit("error");
    assert("start"@[0] == 's' && "close"@[0] == 'c' && "profile"@[0] == 'p' && "ok"@[0] == 'o'
        && "error"@[0] == 'e');
}

/// A message is named by its element, and says what the element's attributes, children and text
/// do. A `<start>` asks for the channel of its number with the profiles in it, a `<close>` for the
/// close of the channel of its number, and gives its reason in its code and its text, in the
/// language it names; an `<error>` gives its reason likewise; `<ok />` and `<profile>` are the
/// replies. Any other element is none.
pub proof fn law_messages_are_what_their_element_says(root: ElementView)
    ensures
        match ManagementView::of_element(root) {
            Ok(ManagementView::Start(m)) => {
                &&& root.name == "start"@
                &&& management::number_attr(root, "number") == Ok::<u32, Error>(m.number)
                &&& root.attr("serverName"@) == m.server_name
                &&& management::profiles_of(root.children_named("profile"@)) == Ok::<
                    Seq<ProfileView>,
                    Error,
                >(m.profiles)
            },
            Ok(ManagementView::Close(m)) => {
                &&& root.name == "close"@
                &&& management::number_attr(root, "number") == Ok::<u32, Error>(m.number)
                &&& management::number_attr(root, "code") == Ok::<u32, Error>(m.code)
                &&& root.attr("xml:lang"@) == m.lang
                &&& is_trimmed(m.text, root.text)
            },
            Ok(ManagementView::Profile(p)) => root.name == "profile"@ && ProfileView::of_element(
                root,
            ) == Ok::<ProfileView, Error>(p),
            Ok(ManagementView::Okay) => root.name == "ok"@,
            Ok(ManagementView::Error(m)) => {
                &&& root.name == "error"@
                &&& management::number_attr(root, "code") == Ok::<u32, Error>(m.code)
                &&& root.attr("xml:lang"@) == m.lang
                &&& is_trimmed(m.text, root.text)
            },
            Err(e) => {
                &&& root.name == "start"@ ==> management::number_attr(root, "number") is Err
                    || management::profiles_of(root.children_named("profile"@)) is Err
                &&& root.name == "close"@ ==> management::number_attr(root, "number") is Err
                    || management::number_attr(root, "code") is Err
                &&& root.name == "profile"@ ==> ProfileView::of_element(root) is Err
                &&& root.name != "ok"@
                &&& root.name == "error"@ ==> management::number_attr(root, "code") is Err
                &&& root.name != "start"@ && root.name != "close"@ && root.name != "profile"@
                    && root.name != "error"@ ==> e == Error::UnexpectedElement
            },
        },
        root.name == "start"@ && ManagementView::of_element(root) is Ok
            ==> ManagementView::of_element(root)->Ok_0 is Start,
        root.name == "close"@ && ManagementView::of_element(root) is Ok
            ==> ManagementView::of_element(root)->Ok_0 is Close,
{
    lemma_names_differ();
    law_explanations_are_trimmed(root);
}

/// A payload is a management message where its content type says so, and is then what the document
/// behind its headers says.
pub proof fn law_payloads_say_what_their_document_does(payload: Seq<u8>, body: Seq<u8>)
    ensures
        !mime::is_beep_xml(payload) ==> ManagementView::of_payload(payload) == Err::<
            ManagementView,
            Error,
        >(Error::NotBeepXml),
        mime::is_beep_xml(payload) ==> ManagementView::of_payload(payload)
            == ManagementView::of_xml(mime::parts(payload).1),
        match xml::parsed(body) {
            Err(e) => ManagementView::of_xml(body) == Err::<ManagementView, Error>(e),
            Ok(root) => ManagementView::of_xml(body) == ManagementView::of_element(root),
        },
{
}

/// A text written out, for one in quotes.
pub open spec fn quoted(name: Seq<char>, value: Seq<char>) -> Seq<char> {
    seq![' '] + name + seq!['=', '\''] + xml::escaped(value) + seq!['\'']
}

/// A profile is written as an element with its URI, and with the encoding of its content where
/// that is Base64. Its content stands in `CDATA` sections; where it has none, the element is
/// empty.
pub proof fn law_profiles_are_written(p: ProfileView)
    ensures
        ({
            let tag = seq!['<'] + "profile"@ + quoted("uri"@, p.uri) + (if p.encoding
                == Encoding::Base64 {
                quoted("encoding"@, "base64"@)
            } else {
                Seq::empty()
            });
            p.text() == (match p.content {
                None => tag + seq![' ', '/', '>'],
                Some(content) => tag + seq!['>'] + "<![CDATA["@ + xml::sectioned(content) + "]]>"@
                    + seq!['<', '/'] + "profile"@ + seq!['>'],
            })
        }),
{
    reveal_strlit("<profile uri='");
    reveal_strlit("profile");
    reveal_strlit("uri");
    reveal_strlit("'");
    reveal_strlit(" encoding='base64'");
    reveal_strlit("encoding");
    reveal_strlit("base64");
    reveal_strlit(" />");
    reveal_strlit(">");
    reveal_strlit("<![CDATA[");
    reveal_strlit("]]>");
    reveal_strlit("</profile>");
    assert(xml::escaped("base64"@) =~= "base64"@) by {
        lemma_base64_is_plain();
    }
    assert(xml::cdata_open() =~= "<![CDATA["@);
    assert(xml::cdata_close() =~= "]]>"@);
    let head = "<profile uri='"@ + xml::escaped(p.uri) + "'"@;
    assert(head =~= seq!['<'] + "profile"@ + quoted("uri"@, p.uri));
    assert(" encoding='base64'"@ =~= quoted("encoding"@, "base64"@));
    let tag = seq!['<'] + "profile"@ + quoted("uri"@, p.uri) + (if p.encoding == Encoding::Base64 {
        quoted("encoding"@, "base64"@)
    } else {
        Seq::empty()
    });
    match p.content {
        None => {
            assert(p.text() =~= tag + seq![' ', '/', '>']);
        },
        Some(content) => {
            assert(p.text() =~= tag + seq!['>'] + "<![CDATA["@ + xml::sectioned(content) + "]]>"@
                + seq!['<', '/'] + "profile"@ + seq!['>']);
        },
    }
}

proof fn lemma_base64_is_plain()
    ensures
        xml::escaped("base64"@) == "base64"@,
{
    reveal_strlit("base64");
    reveal_with_fuel(xml::escaped, 7);
    assert(xml::escaped("base64"@) =~= "base64"@);
}

/// What is written behind the number of a `<close>` or the code of an `<error>`.
pub open spec fn explained(
    tag: Seq<char>,
    lang: Option<Seq<char>>,
    text: Option<Seq<char>>,
    name: Seq<char>,
) -> Seq<char> {
    let spoken = tag + (match lang {
        Some(lang) => quoted("xml:lang"@, lang),
        None => Seq::empty(),
    });
    match text {
        None => spoken + seq![' ', '/', '>', '\r', '\n'],
        Some(text) => spoken + seq!['>'] + xml::escaped(text) + seq!['<', '/'] + name + seq![
            '>',
            '\r',
            '\n',
        ],
    }
}

/// A `<start>` is written as an element with the number it asks for and, where there is one, the
/// server it is for; the profiles it offers stand in it, one to a line.
#[verifier::rlimit(40)]
#[verifier::spinoff_prover]
pub proof fn law_starts_are_written(start: StartView)
    ensures
        ManagementView::Start(start).document() == seq!['<'] + "start"@ + quoted(
            "number"@,
            decimal::decimal_text(start.number as nat),
        ) + (match start.server_name {
            Some(name) => quoted("serverName"@, name),
            None => Seq::empty(),
        }) + seq!['>', '\r', '\n'] + management::offer_lines(start.profiles) + seq!['<', '/']
            + "start"@ + seq!['>', '\r', '\n'],
{
    let number = decimal::decimal_text(start.number as nat);
    lemma_decimal_is_plain(start.number as nat);
    assert("<start number='"@ + number + "'"@ =~= seq!['<'] + "start"@ + quoted(
        "number"@,
        number,
    )) by {
        reveal_strlit("<start number='");
        reveal_strlit("start");
        reveal_strlit("number");
        reveal_strlit("'");
    }
    let named = match start.server_name {
        Some(name) => " serverName='"@ + xml::escaped(name) + "'"@,
        None => Seq::empty(),
    };
    assert(named =~= (match start.server_name {
        Some(name) => quoted("serverName"@, name),
        None => Seq::empty(),
    })) by {
        reveal_strlit(" serverName='");
        reveal_strlit("serverName");
        reveal_strlit("'");
    }
    assert(">\r\n"@ =~= seq!['>', '\r', '\n']) by {
        reveal_strlit(">\r\n");
    }
    let lines = management::offer_lines(start.profiles);
    let front = seq!['<'] + "start"@ + quoted("number"@, number) + named + seq!['>', '\r', '\n']
        + lines;
    assert(front + "</start>\r\n"@ =~= front + seq!['<', '/'] + "start"@ + seq![
        '>',
        '\r',
        '\n',
    ]) by {
        reveal_strlit("</start>\r\n");
        reveal_strlit("start");
    }
}

/// What stands behind the code of a `<close>` or an `<error>` is written the same way.
#[verifier::rlimit(40)]
#[verifier::spinoff_prover]
proof fn lemma_explained(
    tag: Seq<char>,
    lang: Option<Seq<char>>,
    text: Option<Seq<char>>,
    name: Seq<char>,
)
    ensures
        tag + management::explanation_text(lang, text, name) == explained(tag, lang, text, name),
{
    let spoken = match lang {
        Some(lang) => " xml:lang='"@ + xml::escaped(lang) + "'"@,
        None => Seq::empty(),
    };
    assert(spoken =~= (match lang {
        Some(lang) => quoted("xml:lang"@, lang),
        None => Seq::empty(),
    })) by {
        reveal_strlit(" xml:lang='");
        reveal_strlit("xml:lang");
        reveal_strlit("'");
    }
    match text {
        None => {
            assert(" />\r\n"@ =~= seq![' ', '/', '>', '\r', '\n']) by {
                reveal_strlit(" />\r\n");
            }
            assert(tag + (spoken + " />\r\n"@) =~= tag + spoken + seq![
                ' ',
                '/',
                '>',
                '\r',
                '\n',
            ]);
        },
        Some(t) => {
            assert(">"@ =~= seq!['>'] && "</"@ =~= seq!['<', '/'] && ">\r\n"@ =~= seq![
                '>',
                '\r',
                '\n',
            ]) by {
                reveal_strlit(">");
                reveal_strlit("</");
                reveal_strlit(">\r\n");
            }
            assert(tag + (spoken + (seq!['>'] + xml::escaped(t) + seq!['<', '/'] + name + seq![
                '>',
                '\r',
                '\n',
            ])) =~= tag + spoken + seq!['>'] + xml::escaped(t) + seq!['<', '/'] + name + seq![
                '>',
                '\r',
                '\n',
            ]);
        },
    }
}

/// A `<close>` is written as an element with the number of the channel and its code, and an
/// `<error>` as one with its code; the language and the text of their explanation, where they have
/// one, are the element's. `<ok />` says nothing more, and a profile is its element on a line.
#[verifier::rlimit(40)]
#[verifier::spinoff_prover]
pub proof fn law_closes_and_replies_are_written(
    close: CloseView,
    profile: ProfileView,
    error: ErrorReplyView,
)
    ensures
        ManagementView::Close(close).document() == explained(
            seq!['<'] + "close"@ + quoted("number"@, decimal::decimal_text(close.number as nat))
                + quoted("code"@, decimal::decimal_text(close.code as nat)),
            close.lang,
            close.text,
            "close"@,
        ),
        ManagementView::Profile(profile).document() == profile.text() + seq!['\r', '\n'],
        ManagementView::Okay.document() == "<ok />"@,
        ManagementView::Error(error).document() == explained(
            seq!['<'] + "error"@ + quoted("code"@, decimal::decimal_text(error.code as nat)),
            error.lang,
            error.text,
            "error"@,
        ),
{
    lemma_decimal_is_plain(close.number as nat);
    lemma_decimal_is_plain(close.code as nat);
    lemma_decimal_is_plain(error.code as nat);
    let n = decimal::decimal_text(close.number as nat);
    let k = decimal::decimal_text(close.code as nat);
    let c = seq!['<'] + "close"@ + quoted("number"@, n) + quoted("code"@, k);
    assert("<close number='"@ + n + "' code='"@ + k + "'"@ =~= c) by {
        reveal_strlit("<close number='");
        reveal_strlit("close");
        reveal_strlit("number");
        reveal_strlit("' code='");
        reveal_strlit("code");
        reveal_strlit("'");
    }
    lemma_explained(c, close.lang, close.text, "close"@);
    let x = decimal::decimal_text(error.code as nat);
    let e = seq!['<'] + "error"@ + quoted("code"@, x);
    assert("<error code='"@ + x + "'"@ =~= e) by {
        reveal_strlit("<error code='");
        reveal_strlit("error");
        reveal_strlit("code");
        reveal_strlit("'");
    }
    lemma_explained(e, error.lang, error.text, "error"@);
    assert("\r\n"@ =~= seq!['\r', '\n']) by {
        reveal_strlit("\r\n");
    }
}

/// The profiles of a `<start>` are written one behind the other, each on a line of its own.
pub proof fn law_offers_are_written_in_order(profiles: Seq<ProfileView>, first: ProfileView)
    ensures
        management::offer_lines(Seq::empty()) == Seq::<char>::empty(),
        management::offer_lines(seq![first] + profiles) == seq![' ', ' ', ' '] + first.text()
            + seq!['\r', '\n'] + management::offer_lines(profiles),
{
    reveal_strlit("   ");
    reveal_strlit("\r\n");
    let all = seq![first] + profiles;
    assert(all.drop_first() =~= profiles);
    assert("   "@ =~= seq![' ', ' ', ' ']);
    assert("\r\n"@ =~= seq!['\r', '\n']);
}

proof fn lemma_decimal_is_plain(n: nat)
    ensures
        xml::escaped(decimal::decimal_text(n)) == decimal::decimal_text(n),
{
    decimal::lemma_decimal(n);
    let s = decimal::decimal_text(n);
    assert forall|i: int| 0 <= i < s.len() implies '0' <= #[trigger] s[i] <= '9' by {
        assert(decimal::is_digit(decimal::decimal(n)[i]));
    }
    lemma_digits_are_plain(s);
}

proof fn lemma_digits_are_plain(s: Seq<char>)
    requires
        forall|i: int| 0 <= i < s.len() ==> '0' <= #[trigger] s[i] <= '9',
    ensures
        xml::escaped(s) == s,
    decreases s.len(),
{
    if s.len() > 0 {
        let rest = s.drop_first();
        assert forall|i: int| 0 <= i < rest.len() implies '0' <= #[trigger] rest[i] <= '9' by {
            assert(rest[i] == s[i + 1]);
        }
        lemma_digits_are_plain(rest);
        assert(xml::escaped_char(s[0]) =~= seq![s[0]]);
        assert(seq![s[0]] + rest =~= s);
    }
    assert(xml::escaped(s) =~= s);
}

/// A management payload is a document behind the one header that says what it is, in UTF-8.
pub proof fn law_payloads_announce_themselves(m: ManagementView)
    ensures
        m.payload() == utf8::encode_utf8(
            "Content-Type: application/beep+xml\r\n\r\n"@ + m.document(),
        ),
{
    reveal_strlit("Content-Type: application/beep+xml\r\n\r\n");
    reveal_strlit("Content-Type");
    reveal_strlit(": ");
    reveal_strlit("application/beep+xml");
    reveal_strlit("\r\n\r\n");
    assert(mime::beep_xml_text(m.document()) =~= "Content-Type: application/beep+xml\r\n\r\n"@
        + m.document());
}

/// The reply codes are those that RFC 3080 gives.
pub proof fn law_reply_codes_are_those_of_rfc3080()
    ensures
        management::code::SUCCESS == 200,
        management::code::SERVICE_NOT_AVAILABLE == 421,
        management::code::ACTION_NOT_TAKEN == 450,
        management::code::ACTION_ABORTED == 451,
        management::code::TEMPORARY_AUTH_FAILURE == 454,
        management::code::GENERAL_SYNTAX_ERROR == 500,
        management::code::SYNTAX_ERROR_IN_PARAMETERS == 501,
        management::code::PARAMETER_NOT_IMPLEMENTED == 504,
        management::code::AUTHENTICATION_REQUIRED == 530,
        management::code::AUTH_MECHANISM_INSUFFICIENT == 534,
        management::code::AUTHENTICATION_FAILURE == 535,
        management::code::ACTION_NOT_AUTHORISED == 537,
        management::code::AUTH_REQUIRES_ENCRYPTION == 538,
        management::code::REQUESTED_ACTION_NOT_TAKEN == 550,
        management::code::PARAMETER_INVALID == 553,
        management::code::TRANSACTION_FAILED == 554,
{
}

} // verus!
