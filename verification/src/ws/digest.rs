//! The two primitives the WebSocket handshake needs.
//!
//! Neither is a security primitive here. The `Sec-WebSocket-Key` exchange proves nothing about
//! the peer: it exists so that a caching intermediary cannot be tricked into treating a
//! WebSocket handshake as an ordinary response. The SHA-1 is a fixed, publicly computable
//! checksum over a public constant, and nothing downstream trusts it.

use vstd::prelude::*;

verus! {

/// The character of the Base64 alphabet of RFC 4648 for six bits.
pub open spec fn alphabet(v: int) -> char {
    if v < 26 {
        (0x41 + v) as char
    } else if v < 52 {
        (0x61 + v - 26) as char
    } else if v < 62 {
        (0x30 + v - 52) as char
    } else if v == 62 {
        '+'
    } else {
        '/'
    }
}

/// The four characters for up to three octets, padded where an octet is missing.
pub open spec fn base64_group(group: Seq<u8>) -> Seq<char> {
    let a = group[0] as int;
    let b = if group.len() > 1 {
        group[1] as int
    } else {
        0
    };
    let c = if group.len() > 2 {
        group[2] as int
    } else {
        0
    };
    let bits = a * 65536 + b * 256 + c;
    seq![
        alphabet(bits / 262144),
        alphabet(bits / 4096 % 64),
        if group.len() > 1 {
            alphabet(bits / 64 % 64)
        } else {
            '='
        },
        if group.len() > 2 {
            alphabet(bits % 64)
        } else {
            '='
        },
    ]
}

/// Octets in Base64, with padding.
pub open spec fn base64_text(data: Seq<u8>) -> Seq<char>
    decreases data.len(),
{
    if data.len() == 0 {
        Seq::empty()
    } else if data.len() <= 3 {
        base64_group(data)
    } else {
        base64_group(data.take(3)) + base64_text(data.skip(3))
    }
}

/// The character of the Base64 alphabet for six bits.
fn sextet(v: u32) -> (c: char)
    requires
        v < 64,
    ensures
        c == alphabet(v as int),
{
    let v: u8 = v as u8;
    if v < 26 {
        (0x41 + v) as char
    } else if v < 52 {
        (0x61 + (v - 26)) as char
    } else if v < 62 {
        (0x30 + (v - 52)) as char
    } else if v == 62 {
        '+'
    } else {
        '/'
    }
}

/// Encodes `data` as Base64 with padding.
pub fn base64(data: &[u8]) -> (encoded: String)
    ensures
        encoded@ == base64_text(data@),
{
    let mut encoded = String::new();
    let mut i: usize = 0;
    let len: usize = data.len();
    assert(data@.skip(0) =~= data@);
    assert(encoded@ + base64_text(data@) =~= base64_text(data@));
    while i < len
        invariant
            i <= len == data@.len(),
            encoded@ + base64_text(data@.skip(i as int)) == base64_text(data@),
        decreases len - i,
    {
        let ghost rest = data@.skip(i as int);
        let ghost before = encoded@;
        let left: usize = len - i;
        let a: u32 = data[i] as u32;
        let b: u32 = if left > 1 {
            data[i + 1] as u32
        } else {
            0
        };
        let c: u32 = if left > 2 {
            data[i + 2] as u32
        } else {
            0
        };
        let bits: u32 = a * 65536 + b * 256 + c;
        encoded.push(sextet(bits / 262144));
        encoded.push(sextet(bits / 4096 % 64));
        encoded.push(
            if left > 1 {
                sextet(bits / 64 % 64)
            } else {
                '='
            },
        );
        encoded.push(
            if left > 2 {
                sextet(bits % 64)
            } else {
                '='
            },
        );
        let step: usize = if left > 3 {
            3
        } else {
            left
        };
        proof {
            let group = if left > 3 {
                rest.take(3)
            } else {
                rest
            };
            assert(encoded@ =~= before + base64_group(group));
            assert(data@.skip(i + step) =~= rest.skip(step as int));
            if left <= 3 {
                assert(base64_text(rest.skip(step as int)) =~= Seq::<char>::empty());
                assert(encoded@ + Seq::<char>::empty() =~= encoded@);
            } else {
                assert(before + (base64_group(group) + base64_text(rest.skip(3))) =~= before
                    + base64_group(group) + base64_text(rest.skip(3)));
            }
        }
        i += step;
    }
    assert(base64_text(data@.skip(i as int)) =~= Seq::<char>::empty());
    assert(encoded@ =~= encoded@ + Seq::<char>::empty());
    encoded
}

/// Base64 is made of its alphabet and `=` alone, four characters for each three octets begun.
pub proof fn law_base64_is_plain(data: Seq<u8>)
    ensures
        base64_text(data).len() == (data.len() + 2) / 3 * 4,
        forall|i: int|
            0 <= i < base64_text(data).len() ==> {
                let c = #[trigger] base64_text(data)[i];
                ||| 'A' <= c <= 'Z'
                ||| 'a' <= c <= 'z'
                ||| '0' <= c <= '9'
                ||| c == '+'
                ||| c == '/'
                ||| c == '='
            },
    decreases data.len(),
{
    if data.len() > 3 {
        law_base64_is_plain(data.skip(3));
        let first = base64_group(data.take(3));
        let rest = base64_text(data.skip(3));
        assert forall|i: int| 0 <= i < base64_text(data).len() implies {
            let c = #[trigger] base64_text(data)[i];
            ||| 'A' <= c <= 'Z'
            ||| 'a' <= c <= 'z'
            ||| '0' <= c <= '9'
            ||| c == '+'
            ||| c == '/'
            ||| c == '='
        } by {
            if i < 4 {
                assert(base64_text(data)[i] == first[i]);
            } else {
                assert(base64_text(data)[i] == rest[i - 4]);
            }
        }
    }
}

/// The Base64 alphabet of RFC 4648, written out: the character for a value stands at its place.
pub open spec fn rfc4648_alphabet() -> Seq<char> {
    "ABCDEFGHIJKLMNOPQRSTUVWXYZabcdefghijklmnopqrstuvwxyz0123456789+/"@
}

/// The six bits that a character of the alphabet stands for.
pub open spec fn value_of(c: char) -> int {
    rfc4648_alphabet().index_of(c)
}

/// The octets that four characters of Base64 stand for: three, or fewer where there is padding.
pub open spec fn octets_of_group(group: Seq<char>) -> Seq<u8> {
    let first = (value_of(group[0]) * 4 + value_of(group[1]) / 16) as u8;
    let second = (value_of(group[1]) % 16 * 16 + value_of(group[2]) / 4) as u8;
    let third = (value_of(group[2]) % 4 * 64 + value_of(group[3])) as u8;
    if group[2] == '=' {
        seq![first]
    } else if group[3] == '=' {
        seq![first, second]
    } else {
        seq![first, second, third]
    }
}

/// The octets that a text in Base64 stands for, read four characters at a time.
pub open spec fn octets_of_base64(text: Seq<char>) -> Seq<u8>
    decreases text.len(),
{
    if text.len() < 4 {
        Seq::empty()
    } else {
        octets_of_group(text.take(4)) + octets_of_base64(text.skip(4))
    }
}

/// The character for six bits is the one at that place of the alphabet of RFC 4648; no other
/// character stands for them, and padding stands for none.
pub proof fn law_alphabet_is_that_of_rfc4648(v: int)
    requires
        0 <= v < 64,
    ensures
        rfc4648_alphabet().len() == 64,
        alphabet(v) == rfc4648_alphabet()[v],
        value_of(alphabet(v)) == v,
        alphabet(v) != '=',
{
    reveal_strlit("ABCDEFGHIJKLMNOPQRSTUVWXYZabcdefghijklmnopqrstuvwxyz0123456789+/");
    let s = rfc4648_alphabet();
    assert(s.len() == 64);
    assert(forall|i: int| 0 <= i < 26 ==> #[trigger] s[i] == (0x41 + i) as char);
    assert(forall|i: int| 26 <= i < 52 ==> #[trigger] s[i] == (0x61 + i - 26) as char);
    assert(forall|i: int| 52 <= i < 62 ==> #[trigger] s[i] == (0x30 + i - 52) as char);
    assert(s[62] == '+' && s[63] == '/');
    assert(forall|i: int| 0 <= i < 64 ==> #[trigger] s[i] == alphabet(i));
    assert(s.contains(alphabet(v))) by {
        assert(s[v] == alphabet(v));
    }
    let i = s.index_of(alphabet(v));
    assert(0 <= i < 64 && s[i] == alphabet(v));
    assert(alphabet(i) == alphabet(v));
    assert(i == v);
}

/// Four values of six bits hold what three octets hold.
proof fn lemma_bits(a: int, b: int, c: int)
    requires
        0 <= a < 256,
        0 <= b < 256,
        0 <= c < 256,
    ensures
        ({
            let bits = a * 65536 + b * 256 + c;
            let (p, q, r, s) = (bits / 262144, bits / 4096 % 64, bits / 64 % 64, bits % 64);
            &&& 0 <= p < 64 && 0 <= q < 64 && 0 <= r < 64 && 0 <= s < 64
            &&& p * 4 + q / 16 == a
            &&& q % 16 * 16 + r / 4 == b
            &&& r % 4 * 64 + s == c
        }),
{
    let bits = a * 65536 + b * 256 + c;
    let (a1, a0, b1, b0, c1, c0) = (a / 4, a % 4, b / 16, b % 16, c / 64, c % 64);
    assert(a == a1 * 4 + a0 && b == b1 * 16 + b0 && c == c1 * 64 + c0);
    let (q, r) = (a0 * 16 + b1, b0 * 4 + c1);
    lemma_quotient(bits, 64, (a1 * 64 + q) * 64 + r, c0);
    lemma_quotient(bits, 4096, a1 * 64 + q, r * 64 + c0);
    lemma_quotient(bits, 262144, a1, q * 4096 + r * 64 + c0);
    lemma_quotient((a1 * 64 + q) * 64 + r, 64, a1 * 64 + q, r);
    lemma_quotient(a1 * 64 + q, 64, a1, q);
    lemma_quotient(q, 16, a0, b1);
    lemma_quotient(r, 4, b0, c1);
}

/// What is divided into a quotient and a remainder is divided into no others.
proof fn lemma_quotient(x: int, d: int, q: int, r: int)
    requires
        d > 0,
        0 <= r < d,
        x == q * d + r,
    ensures
        x / d == q,
        x % d == r,
{
    vstd::arithmetic::div_mod::lemma_fundamental_div_mod_converse(x, d, q, r);
}

/// Four characters stand for the octets they were made of.
proof fn lemma_group_is_undone(group: Seq<u8>)
    requires
        1 <= group.len() <= 3,
    ensures
        base64_group(group).len() == 4,
        octets_of_group(base64_group(group)) == group,
{
    let a = group[0] as int;
    let b = if group.len() > 1 {
        group[1] as int
    } else {
        0
    };
    let c = if group.len() > 2 {
        group[2] as int
    } else {
        0
    };
    let bits = a * 65536 + b * 256 + c;
    let (p, q, r, s) = (bits / 262144, bits / 4096 % 64, bits / 64 % 64, bits % 64);
    lemma_bits(a, b, c);
    let text = base64_group(group);
    assert(text[0] == alphabet(p) && text[1] == alphabet(q) && text.len() == 4);
    assert(text[2] == (if group.len() > 1 { alphabet(r) } else { '=' }));
    assert(text[3] == (if group.len() > 2 { alphabet(s) } else { '=' }));
    lemma_four_values(text, group, p, q, r, s);
}

proof fn lemma_four_values(text: Seq<char>, group: Seq<u8>, p: int, q: int, r: int, s: int)
    requires
        1 <= group.len() <= 3,
        text.len() == 4,
        0 <= p < 64 && 0 <= q < 64 && 0 <= r < 64 && 0 <= s < 64,
        text[0] == alphabet(p),
        text[1] == alphabet(q),
        text[2] == (if group.len() > 1 { alphabet(r) } else { '=' }),
        text[3] == (if group.len() > 2 { alphabet(s) } else { '=' }),
        p * 4 + q / 16 == group[0],
        group.len() > 1 ==> q % 16 * 16 + r / 4 == group[1],
        group.len() > 2 ==> r % 4 * 64 + s == group[2],
    ensures
        octets_of_group(text) == group,
{
    law_alphabet_is_that_of_rfc4648(p);
    law_alphabet_is_that_of_rfc4648(q);
    law_alphabet_is_that_of_rfc4648(r);
    law_alphabet_is_that_of_rfc4648(s);
    assert(value_of(text[0]) == p && value_of(text[1]) == q);
    assert(octets_of_group(text) =~= group);
}

/// Base64 is undone by the decoding of RFC 4648: read four characters at a time with the alphabet
/// written out there, the text for some octets gives the octets back.
pub proof fn law_base64_is_undone(data: Seq<u8>)
    ensures
        octets_of_base64(base64_text(data)) == data,
    decreases data.len(),
{
    reveal_with_fuel(octets_of_base64, 2);
    let encoded = base64_text(data);
    if data.len() == 0 {
        assert(octets_of_base64(encoded) =~= data);
    } else if data.len() <= 3 {
        lemma_group_is_undone(data);
        assert(encoded.take(4) =~= encoded);
        assert(octets_of_base64(encoded) =~= data);
    } else {
        let first = data.take(3);
        let rest = data.skip(3);
        lemma_group_is_undone(first);
        law_base64_is_undone(rest);
        assert(encoded.take(4) =~= base64_group(first));
        assert(encoded.skip(4) =~= base64_text(rest));
        assert(first + rest =~= data);
    }
}

// ---- SHA-1 -----------------------------------------------------------------------

/// A word turned left by `n` bits.
pub open spec fn rotated(x: u32, n: u32) -> u32 {
    (x << n) | (x >> ((32 - n) as u32))
}

/// The sum of two words, modulo 2^32.
#[verifier::opaque]
pub open spec fn plus(x: u32, y: u32) -> u32 {
    ((x + y) % 0x1_0000_0000) as u32
}

/// Four octets as a word, the most significant first.
pub open spec fn word(s: Seq<u8>, at: int) -> u32 {
    (s[at] * 0x100_0000 + s[at + 1] * 0x1_0000 + s[at + 2] * 0x100 + s[at + 3]) as u32
}

/// The message schedule of a block: its own words, and then words mixed from earlier ones.
pub open spec fn scheduled(block: Seq<u8>, t: int) -> u32
    decreases t,
{
    if t < 16 {
        word(block, 4 * t)
    } else {
        rotated(
            scheduled(block, t - 3) ^ scheduled(block, t - 8) ^ scheduled(block, t - 14)
                ^ scheduled(block, t - 16),
            1,
        )
    }
}

/// The five words that the hash carries from block to block.
#[derive(Clone, Copy)]
pub struct Words {
    pub a: u32,
    pub b: u32,
    pub c: u32,
    pub d: u32,
    pub e: u32,
}

/// What the words start as.
pub open spec fn initial() -> Words {
    Words {
        a: 0x6745_2301,
        b: 0xefcd_ab89,
        c: 0x98ba_dcfe,
        d: 0x1032_5476,
        e: 0xc3d2_e1f0,
    }
}

/// The function and the constant of a round.
pub open spec fn round_parts(w: Words, round: int) -> (u32, u32) {
    if round < 20 {
        ((w.b & w.c) | (!w.b & w.d), 0x5a82_7999)
    } else if round < 40 {
        (w.b ^ w.c ^ w.d, 0x6ed9_eba1)
    } else if round < 60 {
        ((w.b & w.c) | (w.b & w.d) | (w.c & w.d), 0x8f1b_bcdc)
    } else {
        (w.b ^ w.c ^ w.d, 0xca62_c1d6)
    }
}

/// One round on the words, with its word of the schedule.
pub open spec fn after_round(w: Words, round: int, scheduled: u32) -> Words {
    let (mixed, constant) = round_parts(w, round);
    Words {
        a: plus(plus(plus(plus(rotated(w.a, 5), mixed), w.e), constant), scheduled),
        b: w.a,
        c: rotated(w.b, 30),
        d: w.c,
        e: w.d,
    }
}

/// The words after the first `rounds` rounds on a block.
pub open spec fn after_rounds(w: Words, block: Seq<u8>, rounds: nat) -> Words
    decreases rounds,
{
    if rounds == 0 {
        w
    } else {
        after_round(
            after_rounds(w, block, (rounds - 1) as nat),
            rounds - 1,
            scheduled(block, rounds - 1),
        )
    }
}

/// The words once a block has been mixed in.
pub open spec fn compressed(w: Words, block: Seq<u8>) -> Words {
    let r = after_rounds(w, block, 80);
    Words {
        a: plus(w.a, r.a),
        b: plus(w.b, r.b),
        c: plus(w.c, r.c),
        d: plus(w.d, r.d),
        e: plus(w.e, r.e),
    }
}

/// A message with what fills it up to whole blocks: one set bit, zeros, and its length in bits.
pub open spec fn padded(message: Seq<u8>) -> Seq<u8> {
    let zeros = (119 - message.len() % 64) % 64;
    message + seq![0x80u8] + Seq::new(zeros as nat, |i: int| 0u8) + octets_of_long(
        (message.len() * 8) as int % 0x1_0000_0000_0000_0000,
    )
}

/// A number as eight octets, the most significant first.
pub open spec fn octets_of_long(n: int) -> Seq<u8> {
    Seq::new(8, |i: int| (n / pow256(7 - i) % 256) as u8)
}

/// The powers of 256 up to the eighth.
pub open spec fn pow256(n: int) -> int {
    if n <= 0 {
        1
    } else if n == 1 {
        0x100
    } else if n == 2 {
        0x1_0000
    } else if n == 3 {
        0x100_0000
    } else if n == 4 {
        0x1_0000_0000
    } else if n == 5 {
        0x100_0000_0000
    } else if n == 6 {
        0x1_0000_0000_0000
    } else {
        0x100_0000_0000_0000
    }
}

/// The words once the first `blocks` blocks of a padded message have been mixed in.
pub open spec fn hashed(padded: Seq<u8>, blocks: nat) -> Words
    decreases blocks,
{
    if blocks == 0 {
        initial()
    } else {
        compressed(
            hashed(padded, (blocks - 1) as nat),
            padded.subrange(64 * (blocks - 1), 64 * blocks as int),
        )
    }
}

/// A word as four octets, the most significant first.
pub open spec fn octets_of_word(w: u32) -> Seq<u8> {
    seq![
        (w / 0x100_0000) as u8,
        (w / 0x1_0000 % 256) as u8,
        (w / 0x100 % 256) as u8,
        (w % 256) as u8,
    ]
}

/// The SHA-1 digest of a message.
pub open spec fn sha1_of(message: Seq<u8>) -> Seq<u8> {
    let p = padded(message);
    let w = hashed(p, p.len() / 64);
    octets_of_word(w.a) + octets_of_word(w.b) + octets_of_word(w.c) + octets_of_word(w.d)
        + octets_of_word(w.e)
}

/// A word turned left by `n` bits.
fn rotate_left(x: u32, n: u32) -> (r: u32)
    requires
        0 < n < 32,
    ensures
        r == rotated(x, n),
{
    (x << n) | (x >> (32 - n))
}

/// The sum of two words, modulo 2^32.
fn sum(x: u32, y: u32) -> (r: u32)
    ensures
        r == plus(x, y),
{
    reveal(plus);
    x.wrapping_add(y)
}

/// One round on the words, with its word of the schedule.
fn step(w: Words, round: usize, scheduled: u32) -> (r: Words)
    ensures
        r == after_round(w, round as int, scheduled),
{
    let (mixed, constant): (u32, u32) = if round < 20 {
        ((w.b & w.c) | (!w.b & w.d), 0x5a82_7999)
    } else if round < 40 {
        (w.b ^ w.c ^ w.d, 0x6ed9_eba1)
    } else if round < 60 {
        ((w.b & w.c) | (w.b & w.d) | (w.c & w.d), 0x8f1b_bcdc)
    } else {
        (w.b ^ w.c ^ w.d, 0xca62_c1d6)
    };
    Words {
        a: sum(sum(sum(sum(rotate_left(w.a, 5), mixed), w.e), constant), scheduled),
        b: w.a,
        c: rotate_left(w.b, 30),
        d: w.c,
        e: w.d,
    }
}

/// Mixes one 64-octet block into the running state.
fn compress(state: Words, block: &[u8]) -> (r: Words)
    requires
        block@.len() == 64,
    ensures
        r == compressed(state, block@),
{
    let mut schedule: Vec<u32> = Vec::new();
    let mut t: usize = 0;
    while t < 16
        invariant
            t <= 16,
            block@.len() == 64,
            schedule@.len() == t,
            forall|i: int| 0 <= i < t ==> schedule@[i] == scheduled(block@, i),
        decreases 16 - t,
    {
        let w: u32 = block[4 * t] as u32 * 0x100_0000 + block[4 * t + 1] as u32 * 0x1_0000
            + block[4 * t + 2] as u32 * 0x100 + block[4 * t + 3] as u32;
        schedule.push(w);
        t += 1;
    }
    while t < 80
        invariant
            16 <= t <= 80,
            schedule@.len() == t,
            forall|i: int| 0 <= i < t ==> schedule@[i] == scheduled(block@, i),
        decreases 80 - t,
    {
        let w: u32 = rotate_left(
            schedule[t - 3] ^ schedule[t - 8] ^ schedule[t - 14] ^ schedule[t - 16],
            1,
        );
        schedule.push(w);
        t += 1;
    }
    let mut mixed = state;
    let mut round: usize = 0;
    while round < 80
        invariant
            round <= 80,
            schedule@.len() == 80,
            forall|i: int| 0 <= i < 80 ==> schedule@[i] == scheduled(block@, i),
            mixed == after_rounds(state, block@, round as nat),
        decreases 80 - round,
    {
        mixed = step(mixed, round, schedule[round]);
        round += 1;
    }
    let Words { a, b, c, d, e } = mixed;
    Words {
        a: sum(state.a, a),
        b: sum(state.b, b),
        c: sum(state.c, c),
        d: sum(state.d, d),
        e: sum(state.e, e),
    }
}

/// A word as four octets, the most significant first.
fn split_word(w: u32) -> (octets: [u8; 4])
    ensures
        octets@ == octets_of_word(w),
{
    let octets: [u8; 4] = [
        (w / 0x100_0000) as u8,
        (w / 0x1_0000 % 256) as u8,
        (w / 0x100 % 256) as u8,
        (w % 256) as u8,
    ];
    assert(octets@ =~= octets_of_word(w));
    octets
}

/// The message with what fills it up to whole blocks.
fn pad(message: &[u8]) -> (out: Vec<u8>)
    ensures
        out@ == padded(message@),
{
    let mut out: Vec<u8> = vstd::slice::slice_to_vec(message);
    let len: usize = message.len();
    out.push(0x80);
    let zeros: usize = (119 - len % 64) % 64;
    let mut i: usize = 0;
    let ghost start = message@ + seq![0x80u8];
    assert(out@ =~= start + Seq::new(0, |i: int| 0u8));
    while i < zeros
        invariant
            i <= zeros,
            out@ == start + Seq::new(i as nat, |i: int| 0u8),
        decreases zeros - i,
    {
        out.push(0);
        i += 1;
        assert(out@ =~= start + Seq::new(i as nat, |i: int| 0u8));
    }
    let bits: u64 = (len as u64).wrapping_mul(8);
    let ghost filled = out@;
    out.push((bits / 0x100_0000_0000_0000) as u8);
    out.push((bits / 0x1_0000_0000_0000 % 256) as u8);
    out.push((bits / 0x100_0000_0000 % 256) as u8);
    out.push((bits / 0x1_0000_0000 % 256) as u8);
    out.push((bits / 0x100_0000 % 256) as u8);
    out.push((bits / 0x1_0000 % 256) as u8);
    out.push((bits / 0x100 % 256) as u8);
    out.push((bits % 256) as u8);
    proof {
        assert(bits == len * 8 % 0x1_0000_0000_0000_0000);
        assert(out@ =~= filled + octets_of_long(bits as int));
    }
    out
}

/// The SHA-1 digest of `message`, as specified in RFC 3174.
pub fn sha1(message: &[u8]) -> (digest: [u8; 20])
    ensures
        digest@ == sha1_of(message@),
{
    let all = pad(message);
    let mut state = Words {
        a: 0x6745_2301,
        b: 0xefcd_ab89,
        c: 0x98ba_dcfe,
        d: 0x1032_5476,
        e: 0xc3d2_e1f0,
    };
    let blocks: usize = all.len() / 64;
    let mut i: usize = 0;
    while i < blocks
        invariant
            i <= blocks,
            blocks == all@.len() / 64,
            state == hashed(all@, i as nat),
        decreases blocks - i,
    {
        let count: usize = all.len();
        assert(64 * i + 64 <= all@.len());
        let block = vstd::slice::slice_subrange(all.as_slice(), 64 * i, 64 * i + 64);
        assert(block@ =~= all@.subrange(64 * i, 64 * (i + 1)));
        state = compress(state, block);
        i += 1;
    }
    let (a, b, c, d, e): ([u8; 4], [u8; 4], [u8; 4], [u8; 4], [u8; 4]) = (
        split_word(state.a),
        split_word(state.b),
        split_word(state.c),
        split_word(state.d),
        split_word(state.e),
    );
    let digest: [u8; 20] = [
        a[0], a[1], a[2], a[3],
        b[0], b[1], b[2], b[3],
        c[0], c[1], c[2], c[3],
        d[0], d[1], d[2], d[3],
        e[0], e[1], e[2], e[3],
    ];
    assert(digest@ =~= sha1_of(message@));
    digest
}

/// What fills up a message is one set bit, as few zeros as fill its blocks, and the number of its
/// bits in eight octets, the most significant first.
pub proof fn law_padding_ends_in_the_length(message: Seq<u8>)
    ensures
        ({
            let all = padded(message);
            let n = all.len();
            &&& n < message.len() + 9 + 64
            &&& all[message.len() as int] == 0x80
            &&& forall|i: int| message.len() < i < n - 8 ==> #[trigger] all[i] == 0
            &&& all[n - 8] * 0x100_0000_0000_0000 + all[n - 7] * 0x1_0000_0000_0000 + all[n - 6]
                * 0x100_0000_0000 + all[n - 5] * 0x1_0000_0000 + all[n - 4] * 0x100_0000 + all[n
                - 3] * 0x1_0000 + all[n - 2] * 0x100 + all[n - 1] == message.len() * 8
                % 0x1_0000_0000_0000_0000
        }),
{
    let all = padded(message);
    let n = all.len();
    let bits = (message.len() * 8) as int % 0x1_0000_0000_0000_0000;
    let long = octets_of_long(bits);
    assert(all.skip(n - 8) =~= long);
    assert forall|i: int| 0 <= i < 8 implies all[n - 8 + i] == #[trigger] long[i] by {
        assert(all.skip(n - 8)[i] == all[n - 8 + i]);
    }
    assert(all[n - 8] == long[0] && all[n - 7] == long[1] && all[n - 6] == long[2] && all[n - 5]
        == long[3] && all[n - 4] == long[4] && all[n - 3] == long[5] && all[n - 2] == long[6]
        && all[n - 1] == long[7]);
    lemma_long(bits);
}

proof fn lemma_long(bits: int)
    requires
        0 <= bits < 0x1_0000_0000_0000_0000,
    ensures
        ({
            let s = octets_of_long(bits);
            s[0] * 0x100_0000_0000_0000 + s[1] * 0x1_0000_0000_0000 + s[2] * 0x100_0000_0000 + s[3]
                * 0x1_0000_0000 + s[4] * 0x100_0000 + s[5] * 0x1_0000 + s[6] * 0x100 + s[7] == bits
        }),
{
    let s = octets_of_long(bits);
    let b1 = bits / 256;
    let b2 = b1 / 256;
    let b3 = b2 / 256;
    let b4 = b3 / 256;
    let b5 = b4 / 256;
    let b6 = b5 / 256;
    let b7 = b6 / 256;
    lemma_divided_twice(bits, 0x100, 0x1_0000);
    lemma_divided_twice(bits, 0x1_0000, 0x100_0000);
    lemma_divided_twice(bits, 0x100_0000, 0x1_0000_0000);
    lemma_divided_twice(bits, 0x1_0000_0000, 0x100_0000_0000);
    lemma_divided_twice(bits, 0x100_0000_0000, 0x1_0000_0000_0000);
    lemma_divided_twice(bits, 0x1_0000_0000_0000, 0x100_0000_0000_0000);
    assert(s[7] == bits - b1 * 256);
    assert(s[6] == b1 - b2 * 256);
    assert(s[5] == b2 - b3 * 256);
    assert(s[4] == b3 - b4 * 256);
    assert(s[3] == b4 - b5 * 256);
    assert(s[2] == b5 - b6 * 256);
    assert(s[1] == b6 - b7 * 256);
    assert(s[0] == b7);
}

/// Dividing by one power of 256 and then by 256 is dividing by the next.
proof fn lemma_divided_twice(x: int, d: int, next: int)
    requires
        x >= 0,
        d > 0,
        next == d * 256,
    ensures
        x / d / 256 == x / next,
{
    vstd::arithmetic::div_mod::lemma_div_denominator(x, d, 256);
}

/// What fills up a message fills up whole blocks.
pub proof fn law_padding_fills_blocks(message: Seq<u8>)
    ensures
        padded(message).len() % 64 == 0,
        padded(message).len() >= message.len() + 9,
        padded(message).take(message.len() as int) == message,
{
    assert(padded(message).take(message.len() as int) =~= message);
}

} // verus!
