//! Searching, trimming and comparing octets and characters.

use vstd::prelude::*;
use vstd::utf8;

verus! {

/// Whether `pat` stands in `s` at `k`.
pub open spec fn stands_at<T>(s: Seq<T>, pat: Seq<T>, k: int) -> bool {
    0 <= k && k + pat.len() <= s.len() && s.subrange(k, k + pat.len()) == pat
}

/// Whether `s` begins with `pat`.
pub open spec fn begins<T>(s: Seq<T>, pat: Seq<T>) -> bool {
    stands_at(s, pat, 0)
}

/// Where `pat` first stands in `s`, if it does.
pub open spec fn find<T>(s: Seq<T>, pat: Seq<T>) -> Option<int>
    decreases s.len(),
{
    if s.len() < pat.len() {
        None
    } else if begins(s, pat) {
        Some(0)
    } else if s.len() == 0 {
        None
    } else {
        match find(s.drop_first(), pat) {
            Some(k) => Some(k + 1),
            None => None,
        }
    }
}

/// A match one place further on in a sequence is a match in the rest of it.
proof fn lemma_stands_shift<T>(s: Seq<T>, pat: Seq<T>, k: int)
    requires
        s.len() > 0,
        k > 0,
    ensures
        stands_at(s, pat, k) == stands_at(s.drop_first(), pat, k - 1),
{
    if k + pat.len() <= s.len() {
        assert(s.drop_first().subrange(k - 1, k - 1 + pat.len()) =~= s.subrange(k, k + pat.len()));
    }
}

/// What is found is a match, and the first one.
pub proof fn lemma_find<T>(s: Seq<T>, pat: Seq<T>)
    ensures
        match find(s, pat) {
            Some(k) => stands_at(s, pat, k) && forall|j: int|
                0 <= j < k ==> !(#[trigger] stands_at(s, pat, j)),
            None => forall|j: int| !(#[trigger] stands_at(s, pat, j)),
        },
    decreases s.len(),
{
    if s.len() >= pat.len() && !begins(s, pat) && s.len() > 0 {
        let t = s.drop_first();
        lemma_find(t, pat);
        match find(t, pat) {
            Some(k) => {
                lemma_stands_shift(s, pat, k + 1);
                assert forall|j: int| 0 <= j < k + 1 implies !(#[trigger] stands_at(
                    s,
                    pat,
                    j,
                )) by {
                    if j > 0 {
                        lemma_stands_shift(s, pat, j);
                        assert(!stands_at(t, pat, j - 1));
                    }
                }
            },
            None => {
                assert forall|j: int| !(#[trigger] stands_at(s, pat, j)) by {
                    if j > 0 {
                        lemma_stands_shift(s, pat, j);
                        assert(!stands_at(t, pat, j - 1));
                    }
                }
            },
        }
    }
}

/// A match with none before it is what is found.
pub proof fn lemma_find_is<T>(s: Seq<T>, pat: Seq<T>, k: int)
    requires
        stands_at(s, pat, k),
        forall|j: int| 0 <= j < k ==> !(#[trigger] stands_at(s, pat, j)),
    ensures
        find(s, pat) == Some(k),
{
    lemma_find(s, pat);
    if let Some(f) = find(s, pat) {
        if f < k {
            assert(!stands_at(s, pat, f));
        } else if k < f {
            assert(!stands_at(s, pat, k));
        }
    }
}

/// Where no match is, none is found.
pub proof fn lemma_find_none<T>(s: Seq<T>, pat: Seq<T>)
    requires
        forall|j: int| !(#[trigger] stands_at(s, pat, j)),
    ensures
        find(s, pat) is None,
{
    lemma_find(s, pat);
}

/// Whether `pat` stands in `s` at `at`.
pub fn stands(s: &[u8], pat: &[u8], at: usize) -> (r: bool)
    ensures
        r == stands_at(s@, pat@, at as int),
{
    if pat.len() > s.len() || at > s.len() - pat.len() {
        return false;
    }
    let mut i: usize = 0;
    while i < pat.len()
        invariant
            i <= pat@.len(),
            at + pat@.len() <= s@.len(),
            s@.len() <= usize::MAX,
            forall|j: int| 0 <= j < i ==> s@[at + j] == pat@[j],
        decreases pat@.len() - i,
    {
        if s[at + i] != pat[i] {
            assert(s@.subrange(at as int, at + pat@.len())[i as int] != pat@[i as int]);
            return false;
        }
        i += 1;
    }
    assert(s@.subrange(at as int, at + pat@.len()) =~= pat@);
    true
}

/// Where `needle` first stands in `haystack`, if it does.
pub fn find_subslice(haystack: &[u8], needle: &[u8]) -> (r: Option<usize>)
    ensures
        match r {
            Some(i) => find(haystack@, needle@) == Some(i as int) && i + needle@.len()
                <= haystack@.len(),
            None => find(haystack@, needle@) is None,
        },
{
    if needle.len() > haystack.len() {
        return None;
    }
    let last: usize = haystack.len() - needle.len();
    let mut i: usize = 0;
    loop
        invariant
            i <= last,
            last == haystack@.len() - needle@.len(),
            haystack@.len() <= usize::MAX,
            forall|j: int| 0 <= j < i ==> !(#[trigger] stands_at(haystack@, needle@, j)),
        decreases last + 1 - i,
    {
        if stands(haystack, needle, i) {
            proof {
                lemma_find_is(haystack@, needle@, i as int);
            }
            return Some(i);
        }
        if i == last {
            proof {
                lemma_find_none(haystack@, needle@);
            }
            return None;
        }
        i += 1;
    }
}

/// An ASCII letter in lower case; any other octet as it is.
pub open spec fn lower(b: u8) -> u8 {
    if 0x41 <= b <= 0x5a {
        (b + 0x20) as u8
    } else {
        b
    }
}

/// Whether two runs of octets are the same but for the case of ASCII letters.
pub open spec fn same_but_case(a: Seq<u8>, b: Seq<u8>) -> bool {
    a.len() == b.len() && forall|i: int| 0 <= i < a.len() ==> lower(#[trigger] a[i]) == lower(b[i])
}

/// An ASCII letter in lower case; any other octet as it is.
fn to_lower(b: u8) -> (r: u8)
    ensures
        r == lower(b),
{
    if 0x41 <= b && b <= 0x5a {
        b + 0x20
    } else {
        b
    }
}

/// Whether two runs of octets are the same but for the case of ASCII letters.
pub fn eq_ignore_case(a: &[u8], b: &[u8]) -> (r: bool)
    ensures
        r == same_but_case(a@, b@),
{
    if a.len() != b.len() {
        return false;
    }
    let mut i: usize = 0;
    while i < a.len()
        invariant
            i <= a@.len(),
            a@.len() == b@.len(),
            forall|j: int| 0 <= j < i ==> lower(#[trigger] a@[j]) == lower(b@[j]),
        decreases a@.len() - i,
    {
        if to_lower(a[i]) != to_lower(b[i]) {
            return false;
        }
        i += 1;
    }
    true
}

/// Whether an octet is ASCII white space: space, tab, line feed, form feed or carriage return.
pub open spec fn is_blank(b: u8) -> bool {
    b == 0x20 || b == 0x09 || b == 0x0a || b == 0x0c || b == 0x0d
}

/// `s` without the members at its front that `drop` picks.
pub open spec fn trimmed_start<T>(s: Seq<T>, drop: spec_fn(T) -> bool) -> Seq<T>
    decreases s.len(),
{
    if s.len() > 0 && drop(s[0]) {
        trimmed_start(s.drop_first(), drop)
    } else {
        s
    }
}

/// `s` without the members at its end that `drop` picks.
pub open spec fn trimmed_end<T>(s: Seq<T>, drop: spec_fn(T) -> bool) -> Seq<T>
    decreases s.len(),
{
    if s.len() > 0 && drop(s.last()) {
        trimmed_end(s.drop_last(), drop)
    } else {
        s
    }
}

/// `s` without the members at either end that `drop` picks.
pub open spec fn trimmed<T>(s: Seq<T>, drop: spec_fn(T) -> bool) -> Seq<T> {
    trimmed_end(trimmed_start(s, drop), drop)
}

/// What neither begins nor ends with something to drop stays as it is.
pub proof fn lemma_trimmed_id<T>(s: Seq<T>, drop: spec_fn(T) -> bool)
    requires
        s.len() > 0 ==> !drop(s[0]) && !drop(s.last()),
    ensures
        trimmed(s, drop) == s,
{
}

/// The octets without ASCII white space at either end.
pub open spec fn trimmed_blank(s: Seq<u8>) -> Seq<u8> {
    trimmed(s, |b: u8| is_blank(b))
}

/// Drops ASCII white space at either end.
pub fn trim_blank(value: &[u8]) -> (r: &[u8])
    ensures
        r@ == trimmed_blank(value@),
{
    let ghost drop = |b: u8| is_blank(b);
    let mut from: usize = 0;
    let len: usize = value.len();
    assert(value@.subrange(0, len as int) =~= value@);
    while from < len && blank(value[from])
        invariant
            from <= len == value@.len(),
            drop == (|b: u8| is_blank(b)),
            trimmed_start(value@, drop) == trimmed_start(
                value@.subrange(from as int, len as int),
                drop,
            ),
        decreases len - from,
    {
        assert(value@.subrange(from as int, len as int).drop_first() =~= value@.subrange(
            from + 1,
            len as int,
        ));
        from += 1;
    }
    let mut to: usize = len;
    while to > from && blank(value[to - 1])
        invariant
            from <= to <= len == value@.len(),
            drop == (|b: u8| is_blank(b)),
            trimmed_end(value@.subrange(from as int, len as int), drop) == trimmed_end(
                value@.subrange(from as int, to as int),
                drop,
            ),
        decreases to,
    {
        assert(value@.subrange(from as int, to as int).drop_last() =~= value@.subrange(
            from as int,
            to - 1,
        ));
        to -= 1;
    }
    vstd::slice::slice_subrange(value, from, to)
}

/// Whether an octet is ASCII white space.
fn blank(b: u8) -> (r: bool)
    ensures
        r == is_blank(b),
{
    b == 0x20 || b == 0x09 || b == 0x0a || b == 0x0c || b == 0x0d
}

/// The test for one character.
pub open spec fn just(wanted: char) -> spec_fn(char) -> bool {
    |c: char| c == wanted
}

/// How many members stand before the first that `stop` picks.
pub open spec fn until<T>(s: Seq<T>, stop: spec_fn(T) -> bool) -> int
    decreases s.len(),
{
    if s.len() == 0 || stop(s[0]) {
        0
    } else {
        1 + until(s.drop_first(), stop)
    }
}

/// The first member that `stop` picks stands where [`until`] says.
pub proof fn lemma_until<T>(s: Seq<T>, stop: spec_fn(T) -> bool)
    ensures
        0 <= until(s, stop) <= s.len(),
        until(s, stop) < s.len() ==> stop(s[until(s, stop)]),
        forall|i: int| 0 <= i < until(s, stop) ==> !stop(#[trigger] s[i]),
    decreases s.len(),
{
    if s.len() > 0 && !stop(s[0]) {
        lemma_until(s.drop_first(), stop);
        assert forall|i: int| 0 <= i < until(s, stop) implies !stop(#[trigger] s[i]) by {
            if i > 0 {
                assert(s.drop_first()[i - 1] == s[i]);
            }
        }
    }
}

/// A place that nothing before it is picked from, and that is picked or the end, is where
/// [`until`] points.
pub proof fn lemma_until_is<T>(s: Seq<T>, stop: spec_fn(T) -> bool, k: int)
    requires
        0 <= k <= s.len(),
        forall|i: int| 0 <= i < k ==> !stop(#[trigger] s[i]),
        k < s.len() ==> stop(s[k]),
    ensures
        until(s, stop) == k,
{
    lemma_until(s, stop);
    let u = until(s, stop);
    if u < k {
        assert(!stop(s[u]));
    } else if k < u {
        assert(!stop(s[k]));
    }
}

/// The encoding of two texts is that of the first and then that of the second.
pub proof fn lemma_encode_concat(a: Seq<char>, b: Seq<char>)
    ensures
        utf8::encode_utf8(a + b) == utf8::encode_utf8(a) + utf8::encode_utf8(b),
    decreases a.len(),
{
    if a.len() == 0 {
        assert(a + b =~= b);
        assert(utf8::encode_utf8(a) + utf8::encode_utf8(b) =~= utf8::encode_utf8(b));
    } else {
        lemma_encode_concat(a.drop_first(), b);
        assert((a + b).drop_first() =~= a.drop_first() + b);
        assert(utf8::encode_utf8(a + b) =~= utf8::encode_utf8(a) + utf8::encode_utf8(b));
    }
}

/// Where one text ends and the next begins is a boundary between characters.
pub proof fn lemma_char_boundary(a: Seq<char>, b: Seq<char>)
    ensures
        utf8::is_char_boundary(utf8::encode_utf8(a + b), utf8::encode_utf8(a).len() as int),
    decreases a.len(),
{
    let all = utf8::encode_utf8(a + b);
    utf8::encode_utf8_valid_utf8(a + b);
    lemma_encode_concat(a, b);
    if a.len() > 0 {
        lemma_char_boundary(a.drop_first(), b);
        assert((a + b).drop_first() =~= a.drop_first() + b);
        utf8::encode_utf8_first_scalar(a + b);
        assert((a + b)[0] == a[0]);
        assert(utf8::pop_first_scalar(all) =~= utf8::encode_utf8((a + b).drop_first()));
    }
}

/// Texts with the same encoding are the same.
pub proof fn lemma_encode_injective(a: Seq<char>, b: Seq<char>)
    requires
        utf8::encode_utf8(a) == utf8::encode_utf8(b),
    ensures
        a == b,
{
    utf8::encode_utf8_decode_utf8(a);
    utf8::encode_utf8_decode_utf8(b);
}

/// How many octets a character takes in UTF-8.
pub fn char_width(c: char) -> (n: usize)
    ensures
        n == utf8::encode_scalar(c as u32).len(),
        1 <= n <= 4,
{
    let u: u32 = c as u32;
    if u < 0x80 {
        1
    } else if u < 0x800 {
        2
    } else if u < 0x10000 {
        3
    } else {
        4
    }
}

/// A text grows by the width of the character that is added.
pub proof fn lemma_encode_push(a: Seq<char>, c: char)
    ensures
        utf8::encode_utf8(a.push(c)) == utf8::encode_utf8(a) + utf8::encode_scalar(c as u32),
{
    reveal_with_fuel(utf8::encode_utf8, 2);
    let b = seq![c];
    assert(a.push(c) =~= a + b);
    lemma_encode_concat(a, b);
    assert(b.drop_first() =~= Seq::<char>::empty());
    assert(utf8::encode_utf8(b) =~= utf8::encode_scalar(c as u32));
}

/// The characters of a string.
pub fn chars_of(s: &str) -> (out: Vec<char>)
    ensures
        out@ == s@,
{
    let mut out: Vec<char> = Vec::new();
    for c in it: s.chars()
        invariant
            out@ == it.seq().take(it.index() as int),
    {
        out.push(c);
    }
    out
}

/// Whether a character has the Unicode property `White_Space`.
pub open spec fn is_white(c: char) -> bool {
    let u = c as u32;
    ||| 0x09 <= u <= 0x0d
    ||| u == 0x20
    ||| u == 0x85
    ||| u == 0xa0
    ||| u == 0x1680
    ||| 0x2000 <= u <= 0x200a
    ||| u == 0x2028
    ||| u == 0x2029
    ||| u == 0x202f
    ||| u == 0x205f
    ||| u == 0x3000
}

/// A text without white space at either end.
pub open spec fn trimmed_white(s: Seq<char>) -> Seq<char> {
    trimmed(s, |c: char| is_white(c))
}

/// Whether a character has the Unicode property `White_Space`.
pub fn white(c: char) -> (r: bool)
    ensures
        r == is_white(c),
{
    let u: u32 = c as u32;
    (0x09 <= u && u <= 0x0d) || u == 0x20 || u == 0x85 || u == 0xa0 || u == 0x1680 || (0x2000 <= u
        && u <= 0x200a) || u == 0x2028 || u == 0x2029 || u == 0x202f || u == 0x205f || u == 0x3000
}

/// The characters without white space at either end.
pub fn trim_chars(chars: &[char]) -> (r: &[char])
    ensures
        r@ == trimmed_white(chars@),
{
    let ghost drop = |c: char| is_white(c);
    let len: usize = chars.len();
    let mut a: usize = 0;
    assert(chars@.subrange(0, len as int) =~= chars@);
    while a < len && white(chars[a])
        invariant
            a <= len == chars@.len(),
            drop == (|c: char| is_white(c)),
            trimmed_start(chars@, drop) == trimmed_start(
                chars@.subrange(a as int, len as int),
                drop,
            ),
        decreases len - a,
    {
        assert(chars@.subrange(a as int, len as int).drop_first() =~= chars@.subrange(
            a + 1,
            len as int,
        ));
        a += 1;
    }
    let mut b: usize = len;
    while b > a && white(chars[b - 1])
        invariant
            a <= b <= len == chars@.len(),
            drop == (|c: char| is_white(c)),
            trimmed_end(chars@.subrange(a as int, len as int), drop) == trimmed_end(
                chars@.subrange(a as int, b as int),
                drop,
            ),
        decreases b,
    {
        assert(chars@.subrange(a as int, b as int).drop_last() =~= chars@.subrange(
            a as int,
            b - 1,
        ));
        b -= 1;
    }
    vstd::slice::slice_subrange(chars, a, b)
}

/// Characters as a string.
pub fn string_of(chars: &[char]) -> (r: String)
    ensures
        r@ == chars@,
{
    let mut out = String::new();
    let mut i: usize = 0;
    assert(out@ =~= chars@.take(0));
    while i < chars.len()
        invariant
            i <= chars@.len(),
            out@ == chars@.take(i as int),
        decreases chars@.len() - i,
    {
        out.push(chars[i]);
        i += 1;
        assert(out@ =~= chars@.take(i as int));
    }
    assert(out@ =~= chars@);
    out
}

/// The text without white space at either end.
pub fn trim_white(s: &str) -> (r: String)
    ensures
        r@ == trimmed_white(s@),
{
    let chars = chars_of(s);
    string_of(trim_chars(chars.as_slice()))
}

/// A text without white space at its end.
pub open spec fn trimmed_white_end(s: Seq<char>) -> Seq<char> {
    trimmed_end(s, |c: char| is_white(c))
}

/// The characters without white space at their end.
pub fn trim_chars_end(chars: &[char]) -> (r: &[char])
    ensures
        r@ == trimmed_white_end(chars@),
{
    let ghost drop = |c: char| is_white(c);
    let len: usize = chars.len();
    let mut b: usize = len;
    assert(chars@.take(len as int) =~= chars@);
    while b > 0 && white(chars[b - 1])
        invariant
            b <= len == chars@.len(),
            drop == (|c: char| is_white(c)),
            trimmed_end(chars@, drop) == trimmed_end(chars@.take(b as int), drop),
        decreases b,
    {
        assert(chars@.take(b as int).drop_last() =~= chars@.take(b - 1));
        b -= 1;
    }
    let r = vstd::slice::slice_subrange(chars, 0, b);
    assert(r@ =~= chars@.take(b as int));
    r
}

/// Whether `pat` stands in `s` at `at`.
pub fn chars_stand(s: &[char], pat: &[char], at: usize) -> (r: bool)
    ensures
        r == stands_at(s@, pat@, at as int),
{
    if pat.len() > s.len() || at > s.len() - pat.len() {
        return false;
    }
    let mut i: usize = 0;
    while i < pat.len()
        invariant
            i <= pat@.len(),
            at + pat@.len() <= s@.len(),
            s@.len() <= usize::MAX,
            forall|j: int| 0 <= j < i ==> s@[at + j] == pat@[j],
        decreases pat@.len() - i,
    {
        if s[at + i] != pat[i] {
            assert(s@.subrange(at as int, at + pat@.len())[i as int] != pat@[i as int]);
            return false;
        }
        i += 1;
    }
    assert(s@.subrange(at as int, at + pat@.len()) =~= pat@);
    true
}

/// Whether `pat` stands somewhere in `s`.
pub fn chars_hold(s: &[char], pat: &[char]) -> (r: bool)
    ensures
        r == (find(s@, pat@) is Some),
{
    proof {
        lemma_find(s@, pat@);
    }
    let len: usize = s.len();
    if pat.len() > len {
        return false;
    }
    let last: usize = len - pat.len();
    let mut i: usize = 0;
    loop
        invariant
            i <= last,
            last == s@.len() - pat@.len(),
            s@.len() <= usize::MAX,
            forall|j: int| 0 <= j < i ==> !(#[trigger] stands_at(s@, pat@, j)),
        decreases last + 1 - i,
    {
        if chars_stand(s, pat, i) {
            proof {
                lemma_find_is(s@, pat@, i as int);
            }
            return true;
        }
        if i == last {
            proof {
                lemma_find_none(s@, pat@);
            }
            return false;
        }
        i += 1;
    }
}

/// What has been trimmed neither begins nor ends with something to drop.
pub proof fn lemma_trimmed_ends<T>(s: Seq<T>, drop: spec_fn(T) -> bool)
    ensures
        trimmed(s, drop).len() > 0 ==> !drop(trimmed(s, drop)[0]) && !drop(trimmed(s, drop).last()),
{
    lemma_trimmed_start_first(s, drop);
    lemma_trimmed_end_last(trimmed_start(s, drop), drop);
}

proof fn lemma_trimmed_start_first<T>(s: Seq<T>, drop: spec_fn(T) -> bool)
    ensures
        trimmed_start(s, drop).len() > 0 ==> !drop(trimmed_start(s, drop)[0]),
    decreases s.len(),
{
    if s.len() > 0 && drop(s[0]) {
        lemma_trimmed_start_first(s.drop_first(), drop);
    }
}

proof fn lemma_trimmed_end_last<T>(s: Seq<T>, drop: spec_fn(T) -> bool)
    ensures
        trimmed_end(s, drop).len() > 0 ==> !drop(trimmed_end(s, drop).last()) && trimmed_end(
            s,
            drop,
        )[0] == s[0],
    decreases s.len(),
{
    if s.len() > 0 && drop(s.last()) {
        lemma_trimmed_end_last(s.drop_last(), drop);
    }
}

/// White space is what Unicode calls so, and nothing else.
pub proof fn law_white_space_is_that_of_unicode(c: char)
    ensures
        is_white(c) <==> {
            ||| c == '\t'
            ||| c == '\n'
            ||| c == '\u{b}'
            ||| c == '\u{c}'
            ||| c == '\r'
            ||| c == ' '
            ||| c == '\u{85}'
            ||| c == '\u{a0}'
            ||| c == '\u{1680}'
            ||| '\u{2000}' <= c <= '\u{200a}'
            ||| c == '\u{2028}'
            ||| c == '\u{2029}'
            ||| c == '\u{202f}'
            ||| c == '\u{205f}'
            ||| c == '\u{3000}'
        },
{
}

/// Blanks are the ASCII white space: the tabulator, the line feed, the form feed, the carriage
/// return and the blank. Two octets are the same but for case where they are the same, or where
/// one is a letter of ASCII and the other that letter in the other case.
pub proof fn law_case_is_that_of_ascii(a: u8, b: u8)
    ensures
        is_blank(a) <==> a == 9 || a == 10 || a == 12 || a == 13 || a == 32,
        lower(a) == lower(b) <==> {
            ||| a == b
            ||| 65 <= a <= 90 && b == a + 32
            ||| 65 <= b <= 90 && a == b + 32
        },
{
}

/// What is trimmed is a part of what it was, and everything around that part is something to drop;
/// the part neither begins nor ends with any. Trimmed at its end alone, a text keeps its front.
pub proof fn law_trimming_drops_the_ends_alone<T>(s: Seq<T>, drop: spec_fn(T) -> bool) -> (r: (
    int,
    int,
))
    ensures
        0 <= r.0 <= r.1 <= s.len(),
        trimmed(s, drop) == s.subrange(r.0, r.1),
        forall|i: int| 0 <= i < r.0 || r.1 <= i < s.len() ==> drop(#[trigger] s[i]),
        r.0 < r.1 ==> !drop(s[r.0]) && !drop(s[r.1 - 1]),
{
    let a = lemma_start_dropped(s, drop);
    let started = s.skip(a);
    let b = law_trimmed_ends_keep_the_front(started, drop);
    lemma_trimmed_ends(s, drop);
    let t = trimmed(s, drop);
    assert(t =~= s.subrange(a, a + b));
    assert forall|i: int| 0 <= i < a || a + b <= i < s.len() implies drop(#[trigger] s[i]) by {
        if i >= a + b {
            assert(started[i - a] == s[i]);
        }
    }
    if b > 0 {
        assert(t[0] == s[a] && t.last() == s[a + b - 1]);
    }
    (a, a + b)
}

proof fn lemma_start_dropped<T>(s: Seq<T>, drop: spec_fn(T) -> bool) -> (k: int)
    ensures
        0 <= k <= s.len(),
        trimmed_start(s, drop) == s.skip(k),
        forall|i: int| 0 <= i < k ==> drop(#[trigger] s[i]),
    decreases s.len(),
{
    if s.len() > 0 && drop(s[0]) {
        let k = lemma_start_dropped(s.drop_first(), drop);
        assert(s.drop_first().skip(k) =~= s.skip(k + 1));
        assert forall|i: int| 0 <= i < k + 1 implies drop(#[trigger] s[i]) by {
            if i > 0 {
                assert(s.drop_first()[i - 1] == s[i]);
            }
        }
        k + 1
    } else {
        assert(s.skip(0) =~= s);
        0
    }
}

/// What is trimmed at its end is the front of what it was, up to what is not to be dropped, and
/// everything behind is something to drop.
pub proof fn law_trimmed_ends_keep_the_front<T>(s: Seq<T>, drop: spec_fn(T) -> bool) -> (k: int)
    ensures
        0 <= k <= s.len(),
        trimmed_end(s, drop) == s.take(k),
        forall|i: int| k <= i < s.len() ==> drop(#[trigger] s[i]),
        k > 0 ==> !drop(s[k - 1]),
    decreases s.len(),
{
    if s.len() > 0 && drop(s.last()) {
        let k = law_trimmed_ends_keep_the_front(s.drop_last(), drop);
        assert(s.drop_last().take(k) =~= s.take(k));
        assert forall|i: int| k <= i < s.len() implies drop(#[trigger] s[i]) by {
            if i < s.len() - 1 {
                assert(s.drop_last()[i] == s[i]);
            }
        }
        k
    } else {
        assert(s.take(s.len() as int) =~= s);
        s.len() as int
    }
}

} // verus!
