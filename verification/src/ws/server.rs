//! What a listener decides before a session starts: which protocol a connection opens with, and
//! what its greeting offers.

use crate::codec;
use crate::frame::FrameKind;
use crate::greeting;
use crate::greeting::{Greeting, GreetingView};
use crate::xml;
use vstd::prelude::*;
use vstd::string::*;
use vstd::utf8;

verus! {

/// The octets that a WebSocket handshake opens with, and no BEEP frame does: `GET `.
pub const OPENING: [u8; 4] = [0x47, 0x45, 0x54, 0x20];

/// Whether a connection that opens with these octets is a WebSocket handshake rather than plain
/// BEEP.
///
/// A BEEP peer opens by sending its greeting, `RPY 0 0 . 0 …`, and a WebSocket peer opens with
/// `GET `. The two are told apart by those first four octets, which is sound rather than a
/// guess: a BEEP frame header can only begin with one of the six frame keywords.
pub fn is_handshake(seed: &[u8]) -> (r: bool)
    ensures
        r == crate::text::begins(seed@, OPENING@),
{
    crate::text::stands(seed, OPENING.as_slice(), 0)
}

/// Nothing that opens as a WebSocket handshake does begins with a BEEP frame.
pub proof fn law_handshakes_are_no_frames(seed: Seq<u8>, max_frame_size: u32)
    requires
        crate::text::begins(seed, OPENING@),
    ensures
        (codec::DecoderView { max_frame_size, pending: None }).decode(seed) matches Ok(d)
            ==> d.frame is None,
{
    let window = if seed.len() < crate::frame::MAX_HEADER_LEN {
        seed
    } else {
        seed.take(crate::frame::MAX_HEADER_LEN as int)
    };
    codec::lemma_position(window, crate::frame::LF);
    let lf = codec::position(window, crate::frame::LF);
    assert(seed.subrange(0, 4)[0] == seed[0] && seed.subrange(0, 4)[1] == seed[1]
        && seed.subrange(0, 4)[2] == seed[2] && seed.subrange(0, 4)[3] == seed[3]);
    if lf < window.len() && lf > 0 {
        let line = seed.take(lf - 1);
        assert(lf >= 4);
        if line.len() >= 3 {
            assert(line.take(3)[0] == 0x47);
            assert(codec::header_line(line, max_frame_size) is Err) by {
                lemma_no_keyword(line.take(3));
            }
        }
    }
}

/// What begins with a `G` is no frame keyword.
proof fn lemma_no_keyword(token: Seq<u8>)
    requires
        token.len() == 3,
        token[0] == 0x47,
    ensures
        token != crate::frame::SeqView::token(),
        FrameKind::of_token(token) is None,
{
}

/// Whether one run of octets stands before another in the order of their first difference.
pub open spec fn precedes(a: Seq<u8>, b: Seq<u8>) -> bool
    decreases a.len(),
{
    if b.len() == 0 {
        false
    } else if a.len() == 0 {
        true
    } else if a[0] != b[0] {
        a[0] < b[0]
    } else {
        precedes(a.drop_first(), b.drop_first())
    }
}

/// Whether one text stands before another.
pub open spec fn text_precedes(a: Seq<char>, b: Seq<char>) -> bool {
    precedes(utf8::encode_utf8(a), utf8::encode_utf8(b))
}

/// Whether texts are in order, each once.
pub open spec fn ascending(texts: Seq<Seq<char>>) -> bool {
    forall|i: int, j: int|
        0 <= i < j < texts.len() ==> text_precedes(#[trigger] texts[i], #[trigger] texts[j])
}

/// Of two different runs of octets one stands before the other.
proof fn lemma_precedes_total(a: Seq<u8>, b: Seq<u8>)
    ensures
        precedes(a, b) || precedes(b, a) || a == b,
    decreases a.len(),
{
    if a.len() > 0 && b.len() > 0 {
        lemma_precedes_total(a.drop_first(), b.drop_first());
        if a[0] == b[0] && a.drop_first() == b.drop_first() {
            assert(a =~= seq![a[0]] + a.drop_first());
            assert(b =~= seq![b[0]] + b.drop_first());
        }
    } else if a.len() == 0 && b.len() == 0 {
        assert(a =~= b);
    }
}

/// What stands before something stands before all that this stands before.
proof fn lemma_precedes_transitive(a: Seq<u8>, b: Seq<u8>, c: Seq<u8>)
    requires
        precedes(a, b),
        precedes(b, c),
    ensures
        precedes(a, c),
    decreases a.len(),
{
    if a.len() > 0 && a[0] == b[0] && b[0] == c[0] {
        lemma_precedes_transitive(a.drop_first(), b.drop_first(), c.drop_first());
    }
}

/// Whether one run of octets stands before another.
fn stands_before(a: &[u8], b: &[u8]) -> (r: bool)
    ensures
        r == precedes(a@, b@),
{
    let mut i: usize = 0;
    assert(a@.skip(0) =~= a@ && b@.skip(0) =~= b@);
    while i < a.len() && i < b.len()
        invariant
            i <= a@.len(),
            i <= b@.len(),
            precedes(a@, b@) == precedes(a@.skip(i as int), b@.skip(i as int)),
        decreases a@.len() - i,
    {
        if a[i] != b[i] {
            return a[i] < b[i];
        }
        assert(a@.skip(i as int).drop_first() =~= a@.skip(i + 1));
        assert(b@.skip(i as int).drop_first() =~= b@.skip(i + 1));
        i += 1;
    }
    i < b.len()
}

/// Whether a list holds a text.
fn holds(texts: &Vec<String>, wanted: &str) -> (r: bool)
    ensures
        r == greeting::texts(texts@).contains(wanted@),
{
    let mut i: usize = 0;
    while i < texts.len()
        invariant
            i <= texts@.len(),
            forall|j: int| 0 <= j < i ==> greeting::texts(texts@)[j] != wanted@,
        decreases texts@.len() - i,
    {
        if xml::same_text(texts[i].as_str(), wanted) {
            assert(greeting::texts(texts@)[i as int] == wanted@);
            return true;
        }
        i += 1;
    }
    false
}

/// Puts a text that is not in an ordered list where it belongs.
fn insert_in_order(texts: &mut Vec<String>, text: String)
    requires
        ascending(greeting::texts(old(texts)@)),
        !greeting::texts(old(texts)@).contains(text@),
    ensures
        ascending(greeting::texts(final(texts)@)),
        forall|t: Seq<char>| #[trigger]
            greeting::texts(final(texts)@).contains(t) <==> (greeting::texts(old(texts)@).contains(t)
                || t == text@),
{
    let ghost before = greeting::texts(texts@);
    let mut at: usize = 0;
    while at < texts.len() && stands_before(texts[at].as_str().as_bytes(), text.as_str().as_bytes())
        invariant
            at <= texts@.len(),
            before == greeting::texts(texts@),
            forall|j: int| 0 <= j < at ==> text_precedes(#[trigger] before[j], text@),
        decreases texts@.len() - at,
    {
        assert(before[at as int] == texts@[at as int]@);
        at += 1;
    }
    let ghost added = text@;
    let ghost at_start = texts@;
    texts.insert(at, text);
    proof {
        let after = greeting::texts(texts@);
        assert(after =~= before.insert(at as int, added));
        if at < before.len() {
            assert(before[at as int] == at_start[at as int]@);
            lemma_precedes_total(
                utf8::encode_utf8(before[at as int]),
                utf8::encode_utf8(added),
            );
            if utf8::encode_utf8(before[at as int]) == utf8::encode_utf8(added) {
                crate::text::lemma_encode_injective(before[at as int], added);
                assert(before.contains(added));
            }
            assert(text_precedes(added, before[at as int]));
        }
        assert forall|i: int, j: int| 0 <= i < j < after.len() implies text_precedes(
            #[trigger] after[i],
            #[trigger] after[j],
        ) by {
            if i < at && j > at {
                assert(text_precedes(before[i], before[j - 1]));
            } else if i == at && j > at {
                if j > at + 1 {
                    lemma_precedes_transitive(
                        utf8::encode_utf8(added),
                        utf8::encode_utf8(before[at as int]),
                        utf8::encode_utf8(before[j - 1]),
                    );
                }
            } else if i > at {
                assert(text_precedes(before[i - 1], before[j - 1]));
            }
        }
        assert forall|t: Seq<char>| #[trigger] after.contains(t) <==> (before.contains(t) || t
            == added) by {
            if after.contains(t) {
                let k = choose|k: int| 0 <= k < after.len() && after[k] == t;
                if k < at {
                    assert(before[k] == t);
                } else if k > at {
                    assert(before[k - 1] == t);
                }
            }
            if before.contains(t) {
                let k = choose|k: int| 0 <= k < before.len() && before[k] == t;
                if k < at {
                    assert(after[k] == t);
                } else {
                    assert(after[k + 1] == t);
                }
            }
            if t == added {
                assert(after[at as int] == t);
            }
        }
    }
}

/// Offers every profile that a router serves in a greeting, behind those that the greeting
/// offers already.
///
/// What is added is in order, so that the greeting is the same octets in every run.
#[must_use]
pub fn advertise(greeting: Greeting, uris: &[String]) -> (r: Greeting)
    ensures
        exists|added: Seq<Seq<char>>|
            {
                &&& r@ == (GreetingView { profiles: greeting@.profiles + added, ..greeting@ })
                &&& #[trigger] ascending(added)
                &&& forall|t: Seq<char>| #[trigger]
                    added.contains(t) <==> (greeting::texts(uris@).contains(t)
                        && !greeting@.profiles.contains(t))
            },
{
    let ghost all = greeting::texts(uris@);
    let mut added: Vec<String> = Vec::new();
    let mut i: usize = 0;
    while i < uris.len()
        invariant
            i <= uris@.len(),
            all == greeting::texts(uris@),
            ascending(greeting::texts(added@)),
            forall|t: Seq<char>| #[trigger]
                greeting::texts(added@).contains(t) <==> (all.take(i as int).contains(t)
                    && !greeting@.profiles.contains(t)),
        decreases uris@.len() - i,
    {
        let ghost before = greeting::texts(added@);
        let uri = uris[i].as_str();
        assert(all[i as int] == uri@);
        proof {
            assert forall|t: Seq<char>| #[trigger] all.take(i + 1).contains(t) <==> (all.take(
                i as int,
            ).contains(t) || t == uri@) by {
                if all.take(i + 1).contains(t) {
                    let longer = all.take(i + 1);
                    let k = choose|k: int| 0 <= k < i + 1 && longer[k] == t;
                    if k < i {
                        assert(all.take(i as int)[k] == t);
                    }
                }
                if all.take(i as int).contains(t) {
                    let shorter = all.take(i as int);
                    let k = choose|k: int| 0 <= k < i && shorter[k] == t;
                    assert(all.take(i + 1)[k] == t);
                }
                if t == uri@ {
                    assert(all.take(i + 1)[i as int] == t);
                }
            }
        }
        if !greeting.advertises(uri) && !holds(&added, uri) {
            insert_in_order(&mut added, uri.to_owned());
        }
        i += 1;
        proof {
            assert forall|t: Seq<char>| #[trigger] greeting::texts(added@).contains(t) <==> (
            all.take(i as int).contains(t) && !greeting@.profiles.contains(t)) by {
                assert(before.contains(t) <==> (all.take(i - 1).contains(t)
                    && !greeting@.profiles.contains(t)));
            }
        }
    }
    assert(all.take(i as int) =~= all);
    let ghost start = greeting@;
    let ghost views = greeting::texts(added@);
    let mut greeting = greeting;
    let mut i: usize = 0;
    assert(start.profiles + views.take(0) =~= start.profiles);
    while i < added.len()
        invariant
            i <= added@.len(),
            views == greeting::texts(added@),
            greeting@ == (GreetingView { profiles: start.profiles + views.take(i as int), ..start }),
        decreases added@.len() - i,
    {
        greeting = greeting.with_profile(added[i].as_str());
        assert((start.profiles + views.take(i as int)).push(views[i as int]) =~= start.profiles
            + views.take(i + 1));
        i += 1;
    }
    assert(views.take(i as int) =~= views);
    assert(ascending(views));
    greeting
}

/// Runs of octets are ordered by the first place where they differ, the smaller octet first. Where
/// they differ nowhere, what ends first stands first, and nothing stands before itself.
pub proof fn law_the_first_difference_decides(
    common: Seq<u8>,
    a: u8,
    b: u8,
    more: Seq<u8>,
    other: Seq<u8>,
)
    requires
        a < b,
    ensures
        precedes(common.push(a) + more, common.push(b) + other),
        !precedes(common.push(b) + other, common.push(a) + more),
        precedes(common, common.push(a) + more),
        !precedes(common.push(a) + more, common),
        !precedes(common, common),
    decreases common.len(),
{
    let low = common.push(a) + more;
    let high = common.push(b) + other;
    if common.len() > 0 {
        let rest = common.drop_first();
        law_the_first_difference_decides(rest, a, b, more, other);
        assert(low.drop_first() =~= rest.push(a) + more);
        assert(high.drop_first() =~= rest.push(b) + other);
        assert(low[0] == common[0] && high[0] == common[0]);
    }
}

/// A connection opens as a WebSocket handshake does where its first four octets are `GET `, and
/// whatever follows.
pub proof fn law_handshakes_open_with_get(seed: Seq<u8>, more: Seq<u8>)
    ensures
        crate::text::begins(seed, OPENING@) <==> {
            &&& seed.len() >= 4
            &&& seed[0] == 'G' as u8
            &&& seed[1] == 'E' as u8
            &&& seed[2] == 'T' as u8
            &&& seed[3] == ' ' as u8
        },
        crate::text::begins(seed, OPENING@) ==> crate::text::begins(seed + more, OPENING@),
{
    if seed.len() >= 4 {
        let first = seed.subrange(0, 4);
        assert(first[0] == seed[0] && first[1] == seed[1] && first[2] == seed[2] && first[3]
            == seed[3]);
        assert((seed + more).subrange(0, 4) =~= first);
        if seed[0] == 0x47 && seed[1] == 0x45 && seed[2] == 0x54 && seed[3] == 0x20 {
            assert(first =~= OPENING@);
        }
    }
}

} // verus!
