//! The heads of HTTP messages: reading one to its end, and what its lines say.
//!
//! An opening handshake is one head each way, with no body, whose whole purpose is to stop being
//! HTTP. This module does what that needs and no more.

use crate::octets;
use crate::text;
use crate::xml;
use bytes::{Bytes, BytesMut};
use vstd::prelude::*;
use vstd::string::*;
use vstd::utf8;

verus! {

/// Largest head accepted, so a peer that never sends a blank line cannot make us read for ever.
pub const MAX_HEAD: usize = 16_384;

// ---- Lines and fields ------------------------------------------------------------

/// What ends a line.
pub open spec fn line_end() -> Seq<char> {
    seq!['\r', '\n']
}

/// The lines of a text: what stands before, between and after its line ends.
pub open spec fn lines(s: Seq<char>) -> Seq<Seq<char>>
    decreases s.len(),
{
    match text::find(s, line_end()) {
        None => seq![s],
        Some(k) => {
            proof {
                text::lemma_find(s, line_end());
            }
            seq![s.take(k)] + lines(s.skip(k + 2))
        },
    }
}

/// The name and the value of a header line, without white space around either. A line without
/// a colon is none.
pub open spec fn field(line: Seq<char>) -> Option<(Seq<char>, Seq<char>)> {
    let colon = text::until(line, text::just(':'));
    if colon == line.len() {
        None
    } else {
        Some((text::trimmed_white(line.take(colon)), text::trimmed_white(line.skip(colon + 1))))
    }
}

/// The header fields among some lines, in order.
pub open spec fn fields(lines: Seq<Seq<char>>) -> Seq<(Seq<char>, Seq<char>)>
    decreases lines.len(),
{
    if lines.len() == 0 {
        Seq::empty()
    } else {
        (match field(lines[0]) {
            Some(f) => seq![f],
            None => Seq::empty(),
        }) + fields(lines.drop_first())
    }
}

/// What a head says: its first line and its header fields.
#[verifier::ext_equal]
pub struct HeadView {
    pub first: Seq<char>,
    pub fields: Seq<(Seq<char>, Seq<char>)>,
}

/// The head that a text is.
pub open spec fn head(s: Seq<char>) -> HeadView {
    HeadView { first: lines(s)[0], fields: fields(lines(s).drop_first()) }
}

/// An ASCII letter in lower case; any other character as it is.
pub open spec fn lower(c: char) -> char {
    if 'A' <= c <= 'Z' {
        (c as u32 + 0x20) as char
    } else {
        c
    }
}

/// Whether two texts are the same but for the case of ASCII letters.
pub open spec fn same_but_case(a: Seq<char>, b: Seq<char>) -> bool {
    a.len() == b.len() && forall|i: int| 0 <= i < a.len() ==> lower(#[trigger] a[i]) == lower(b[i])
}

/// What stands before, between and after the commas of a text.
pub open spec fn pieces(s: Seq<char>) -> Seq<Seq<char>>
    decreases s.len(),
{
    let comma = text::until(s, text::just(','));
    if 0 <= comma < s.len() {
        seq![s.take(comma)] + pieces(s.skip(comma + 1))
    } else {
        seq![s]
    }
}

/// Whether a comma separated value holds a token, in whatever case.
pub open spec fn lists(value: Seq<char>, token: Seq<char>) -> bool {
    exists|i: int|
        0 <= i < pieces(value).len() && same_but_case(
            text::trimmed_white(#[trigger] pieces(value)[i]),
            token,
        )
}

/// The words of a text: its stretches without white space.
pub open spec fn words(s: Seq<char>) -> Seq<Seq<char>>
    decreases s.len(),
{
    let white = |c: char| text::is_white(c);
    let from = text::trimmed_start(s, white);
    if from.len() == 0 {
        Seq::empty()
    } else {
        let k = text::until(from, white);
        proof {
            text::lemma_until(from, white);
            lemma_word_starts(s);
        }
        seq![from.take(k)] + words(from.skip(k))
    }
}

/// What is left of leading white space begins with something else, and is no longer.
pub proof fn lemma_word_starts(s: Seq<char>)
    ensures
        ({
            let white = |c: char| text::is_white(c);
            let from = text::trimmed_start(s, white);
            &&& from.len() <= s.len()
            &&& from.len() > 0 ==> !white(from[0])
        }),
    decreases s.len(),
{
    if s.len() > 0 && text::is_white(s[0]) {
        lemma_word_starts(s.drop_first());
    }
}

/// The status that a status line gives: its second word, if that is a number of sixteen bits.
pub open spec fn status(line: Seq<char>) -> Option<u16> {
    if words(line).len() < 2 {
        None
    } else {
        match xml::unsigned(words(line)[1], 10) {
            Some(n) => if n <= u16::MAX {
                Some(n as u16)
            } else {
                None
            },
            None => None,
        }
    }
}

impl HeadView {
    /// Whether some header field of a name holds a token, both in whatever case.
    pub open spec fn names(self, name: Seq<char>, token: Seq<char>) -> bool {
        exists|i: int|
            0 <= i < self.fields.len() && same_but_case(#[trigger] self.fields[i].0, name)
                && lists(self.fields[i].1, token)
    }

    /// Where the first header field of a name stands, or the end.
    pub open spec fn place(self, name: Seq<char>) -> int {
        text::until(self.fields, |f: (Seq<char>, Seq<char>)| same_but_case(f.0, name))
    }

    /// The value of the first header field of a name.
    pub open spec fn value(self, name: Seq<char>) -> Option<Seq<char>> {
        if self.place(name) < self.fields.len() {
            Some(self.fields[self.place(name)].1)
        } else {
            None
        }
    }

    /// Whether some header field of a name has a value.
    pub open spec fn has(self, name: Seq<char>, value: Seq<char>) -> bool {
        exists|i: int|
            0 <= i < self.fields.len() && same_but_case(#[trigger] self.fields[i].0, name)
                && self.fields[i].1 == value
    }
}

/// A head that has been split into its lines.
pub struct Head {
    first: Vec<char>,
    fields: Vec<(Vec<char>, Vec<char>)>,
}

/// The view of a list of header fields.
spec fn field_views(fields: Seq<(Vec<char>, Vec<char>)>) -> Seq<(Seq<char>, Seq<char>)> {
    fields.map_values(|f: (Vec<char>, Vec<char>)| (f.0@, f.1@))
}

impl View for Head {
    type V = HeadView;

    closed spec fn view(&self) -> HeadView {
        HeadView { first: self.first@, fields: field_views(self.fields@) }
    }
}

/// Where the first line end stands, if there is one.
fn find_line_end(s: &[char]) -> (r: Option<usize>)
    ensures
        match r {
            Some(k) => text::find(s@, line_end()) == Some(k as int) && k + 2 <= s@.len(),
            None => text::find(s@, line_end()) is None,
        },
{
    let len: usize = s.len();
    let mut i: usize = 0;
    while i < len && i < len - 1
        invariant
            len == s@.len(),
            i <= len,
            forall|j: int| 0 <= j < i ==> !(#[trigger] text::stands_at(s@, line_end(), j)),
        decreases len - i,
    {
        if s[i] == '\r' && s[i + 1] == '\n' {
            proof {
                assert(s@.subrange(i as int, i + 2) =~= line_end());
                text::lemma_find_is(s@, line_end(), i as int);
            }
            return Some(i);
        }
        assert(!text::stands_at(s@, line_end(), i as int)) by {
            if text::stands_at(s@, line_end(), i as int) {
                assert(s@.subrange(i as int, i + 2)[0] == s@[i as int]);
                assert(s@.subrange(i as int, i + 2)[1] == s@[i + 1]);
            }
        }
        i += 1;
    }
    proof {
        text::lemma_find_none(s@, line_end());
    }
    None
}

/// Where the first `wanted` stands, or the end.
fn find_char(s: &[char], wanted: char) -> (r: usize)
    ensures
        r == text::until(s@, text::just(wanted)),
        r <= s@.len(),
{
    let mut i: usize = 0;
    while i < s.len() && s[i] != wanted
        invariant
            i <= s@.len(),
            forall|j: int| 0 <= j < i ==> s@[j] != wanted,
        decreases s@.len() - i,
    {
        i += 1;
    }
    proof {
        text::lemma_until_is(s@, text::just(wanted), i as int);
    }
    i
}

/// The name and the value of a header line.
fn split_field(line: &[char]) -> (r: Option<(Vec<char>, Vec<char>)>)
    ensures
        field(line@) == (match r {
            Some(f) => Some((f.0@, f.1@)),
            None => None,
        }),
{
    let len: usize = line.len();
    let colon: usize = find_char(line, ':');
    if colon == len {
        return None;
    }
    let name = vstd::slice::slice_subrange(line, 0, colon);
    let value = vstd::slice::slice_subrange(line, colon + 1, len);
    assert(name@ =~= line@.take(colon as int));
    assert(value@ =~= line@.skip(colon + 1));
    Some(
        (
            vstd::slice::slice_to_vec(text::trim_chars(name)),
            vstd::slice::slice_to_vec(text::trim_chars(value)),
        ),
    )
}

/// Whether two texts are the same but for the case of ASCII letters.
fn eq_ignore_case(a: &[char], b: &[char]) -> (r: bool)
    ensures
        r == same_but_case(a@, b@),
{
    if a.len() != b.len() {
        return false;
    }
    let mut i: usize = 0;
    while i < a.len()
        invariant
            i <= a@.len(),
            a@.len() == b@.len(),
            forall|j: int| 0 <= j < i ==> lower(#[trigger] a@[j]) == lower(b@[j]),
        decreases a@.len() - i,
    {
        if to_lower(a[i]) != to_lower(b[i]) {
            return false;
        }
        i += 1;
    }
    true
}

/// An ASCII letter in lower case; any other character as it is.
fn to_lower(c: char) -> (r: char)
    ensures
        r == lower(c),
{
    if 'A' <= c && c <= 'Z' {
        (c as u8 + 0x20) as char
    } else {
        c
    }
}

/// A value lists a token in its first piece, or after its first comma.
proof fn lemma_lists(value: Seq<char>, token: Seq<char>)
    ensures
        ({
            let comma = text::until(value, text::just(','));
            lists(value, token) == (same_but_case(text::trimmed_white(value.take(comma)), token)
                || (comma < value.len() && lists(value.skip(comma + 1), token)))
        }),
{
    let comma = text::until(value, text::just(','));
    text::lemma_until(value, text::just(','));
    let all = pieces(value);
    assert(all[0] == value.take(comma)) by {
        assert(comma == value.len() ==> value.take(comma) =~= value);
    }
    if comma < value.len() {
        let rest = pieces(value.skip(comma + 1));
        assert(all =~= seq![value.take(comma)] + rest);
        if lists(value.skip(comma + 1), token) {
            let i = choose|i: int|
                0 <= i < rest.len() && same_but_case(text::trimmed_white(#[trigger] rest[i]), token);
            assert(all[i + 1] == rest[i]);
        }
        if lists(value, token) {
            let i = choose|i: int|
                0 <= i < all.len() && same_but_case(text::trimmed_white(#[trigger] all[i]), token);
            if i > 0 {
                assert(rest[i - 1] == all[i]);
            }
        }
    }
}

/// Whether a comma separated value holds a token, in whatever case.
fn holds(value: &[char], token: &[char]) -> (r: bool)
    ensures
        r == lists(value@, token@),
{
    let mut rest = value;
    loop
        invariant
            lists(value@, token@) == lists(rest@, token@),
        decreases rest@.len(),
    {
        let len: usize = rest.len();
        let comma: usize = find_char(rest, ',');
        let piece = vstd::slice::slice_subrange(rest, 0, comma);
        proof {
            assert(piece@ =~= rest@.take(comma as int));
            lemma_lists(rest@, token@);
        }
        if eq_ignore_case(text::trim_chars(piece), token) {
            return true;
        }
        if comma == len {
            return false;
        }
        let after = vstd::slice::slice_subrange(rest, comma + 1, len);
        assert(after@ =~= rest@.skip(comma + 1));
        rest = after;
    }
}

/// Whether a comma separated value holds a token, in whatever case.
pub fn value_lists(value: &str, token: &str) -> (r: bool)
    ensures
        r == lists(value@, token@),
{
    let value = text::chars_of(value);
    let token = text::chars_of(token);
    holds(value.as_slice(), token.as_slice())
}

/// The first two words of a text, as far as it has them.
fn two_words(s: &[char]) -> (r: (Option<&[char]>, Option<&[char]>))
    ensures
        match r.0 {
            Some(w) => words(s@).len() > 0 && w@ == words(s@)[0],
            None => words(s@).len() == 0,
        },
        match r.1 {
            Some(w) => words(s@).len() > 1 && w@ == words(s@)[1],
            None => words(s@).len() < 2,
        },
{
    match next_word(s) {
        None => (None, None),
        Some((first, rest)) => match next_word(rest) {
            None => (Some(first), None),
            Some((second, _)) => (Some(first), Some(second)),
        },
    }
}

/// The first word of a text and what follows it.
fn next_word(s: &[char]) -> (r: Option<(&[char], &[char])>)
    ensures
        match r {
            Some((w, rest)) => words(s@) == seq![w@] + words(rest@),
            None => words(s@).len() == 0,
        },
{
    let ghost white = |c: char| text::is_white(c);
    let len: usize = s.len();
    let mut from: usize = 0;
    assert(s@.skip(0) =~= s@);
    while from < len && text::white(s[from])
        invariant
            from <= len == s@.len(),
            white == (|c: char| text::is_white(c)),
            text::trimmed_start(s@, white) == text::trimmed_start(s@.skip(from as int), white),
        decreases len - from,
    {
        assert(s@.skip(from as int).drop_first() =~= s@.skip(from + 1));
        from += 1;
    }
    let ghost tail = s@.skip(from as int);
    assert(text::trimmed_start(s@, white) == tail);
    if from == len {
        return None;
    }
    let mut to: usize = from;
    while to < len && !text::white(s[to])
        invariant
            from <= to <= len == s@.len(),
            tail == s@.skip(from as int),
            forall|j: int| 0 <= j < to - from ==> !text::is_white(#[trigger] tail[j]),
        decreases len - to,
    {
        assert(tail[to - from] == s@[to as int]);
        to += 1;
    }
    let word = vstd::slice::slice_subrange(s, from, to);
    let rest = vstd::slice::slice_subrange(s, to, len);
    proof {
        assert(to < len ==> tail[to - from] == s@[to as int]);
        text::lemma_until_is(tail, white, to - from);
        assert(word@ =~= tail.take(to - from));
        assert(rest@ =~= tail.skip(to - from));
    }
    Some((word, rest))
}

impl Head {
    /// Splits a head into its lines and its header fields.
    pub fn parse(head: &str) -> (r: Head)
        ensures
            r@ == self::head(head@),
    {
        let chars = text::chars_of(head);
        let len: usize = chars.len();
        // Where the next line starts, if `more` says that there is one.
        let (first, mut at, mut more): (usize, usize, bool) = match find_line_end(
            chars.as_slice(),
        ) {
            None => (len, len, false),
            Some(k) => (k, k + 2, true),
        };
        let first = vstd::slice::slice_subrange(chars.as_slice(), 0, first);
        let ghost all = lines(head@).drop_first();
        proof {
            assert(first@ =~= lines(head@)[0]);
            if more {
                assert(all =~= lines(head@.skip(at as int)));
            } else {
                assert(all =~= Seq::empty());
            }
        }
        let mut found: Vec<(Vec<char>, Vec<char>)> = Vec::new();
        assert(field_views(found@) + fields(all) =~= fields(all));
        while more
            invariant
                chars@ == head@,
                len == chars@.len(),
                at <= len,
                fields(all) == field_views(found@) + (if more {
                    fields(lines(head@.skip(at as int)))
                } else {
                    Seq::empty()
                }),
            decreases len - at, if more { 1int } else { 0int },
        {
            let ghost before = field_views(found@);
            let rest = vstd::slice::slice_subrange(chars.as_slice(), at, len);
            let ghost tail = head@.skip(at as int);
            assert(rest@ =~= tail);
            let (end, next, again): (usize, usize, bool) = match find_line_end(rest) {
                None => (len - at, len, false),
                Some(k) => (k, at + k + 2, true),
            };
            let line = vstd::slice::slice_subrange(rest, 0, end);
            proof {
                assert(line@ =~= lines(tail)[0]);
                if again {
                    assert(tail.skip(end + 2) =~= head@.skip(next as int));
                    assert(lines(tail).drop_first() =~= lines(head@.skip(next as int)));
                } else {
                    assert(lines(tail).drop_first() =~= Seq::empty());
                }
            }
            if let Some(f) = split_field(line) {
                found.push(f);
                assert(field_views(found@) =~= before + seq![(f.0@, f.1@)]);
                assert(before + (seq![(f.0@, f.1@)] + fields(lines(tail).drop_first())) =~= before
                    + seq![(f.0@, f.1@)] + fields(lines(tail).drop_first()));
            } else {
                assert(before + (Seq::<(Seq<char>, Seq<char>)>::empty() + fields(
                    lines(tail).drop_first(),
                )) =~= before + fields(lines(tail).drop_first()));
            }
            at = next;
            more = again;
        }
        assert(field_views(found@) + Seq::<(Seq<char>, Seq<char>)>::empty() =~= field_views(found@));
        Head { first: vstd::slice::slice_to_vec(first), fields: found }
    }

    /// Whether the first word of the first line is `word`.
    pub fn begins_with(&self, word: &str) -> (r: bool)
        ensures
            r == (words(self@.first).len() > 0 && words(self@.first)[0] == word@),
    {
        match two_words(self.first.as_slice()).0 {
            Some(first) => xml::same_text(text::string_of(first).as_str(), word),
            None => false,
        }
    }

    /// The status that the first line gives, if it can be read.
    pub fn status(&self) -> (r: Option<u16>)
        ensures
            r == status(self@.first),
    {
        match two_words(self.first.as_slice()).1 {
            None => None,
            Some(code) => {
                assert(code@.subrange(0, code@.len() as int) =~= code@);
                match xml::parse_unsigned(code, 0, code.len(), 10) {
                    Some(n) => if n <= 0xffff {
                        Some(n as u16)
                    } else {
                        None
                    },
                    None => None,
                }
            },
        }
    }

    /// Whether some header field of a name holds a token in its comma separated value.
    pub fn names(&self, name: &str, token: &str) -> (r: bool)
        ensures
            r == self@.names(name@, token@),
    {
        let wanted = text::chars_of(name);
        let piece = text::chars_of(token);
        let mut i: usize = 0;
        while i < self.fields.len()
            invariant
                i <= self.fields@.len(),
                wanted@ == name@,
                piece@ == token@,
                forall|j: int|
                    0 <= j < i ==> !(same_but_case(#[trigger] self@.fields[j].0, name@) && lists(
                        self@.fields[j].1,
                        token@,
                    )),
            decreases self.fields@.len() - i,
        {
            assert(self@.fields[i as int] == (self.fields@[i as int].0@, self.fields@[i as int].1@));
            if eq_ignore_case(self.fields[i].0.as_slice(), wanted.as_slice()) && holds(
                self.fields[i].1.as_slice(),
                piece.as_slice(),
            ) {
                assert(same_but_case(self@.fields[i as int].0, name@));
                return true;
            }
            i += 1;
        }
        false
    }

    /// The value of the first header field of a name.
    pub fn value(&self, name: &str) -> (r: Option<String>)
        ensures
            self@.value(name@) == (match r {
                Some(v) => Some(v@),
                None => None,
            }),
    {
        let wanted = text::chars_of(name);
        let ghost stop = |f: (Seq<char>, Seq<char>)| same_but_case(f.0, name@);
        let mut i: usize = 0;
        while i < self.fields.len()
            invariant
                i <= self.fields@.len(),
                wanted@ == name@,
                stop == (|f: (Seq<char>, Seq<char>)| same_but_case(f.0, name@)),
                forall|j: int| 0 <= j < i ==> !stop(#[trigger] self@.fields[j]),
            decreases self.fields@.len() - i,
        {
            assert(self@.fields[i as int] == (self.fields@[i as int].0@, self.fields@[i as int].1@));
            if eq_ignore_case(self.fields[i].0.as_slice(), wanted.as_slice()) {
                proof {
                    text::lemma_until_is(self@.fields, stop, i as int);
                }
                return Some(text::string_of(self.fields[i].1.as_slice()));
            }
            i += 1;
        }
        proof {
            text::lemma_until_is(self@.fields, stop, i as int);
        }
        None
    }

    /// Whether some header field of a name has a value.
    pub fn has(&self, name: &str, value: &str) -> (r: bool)
        ensures
            r == self@.has(name@, value@),
    {
        let wanted = text::chars_of(name);
        let mut i: usize = 0;
        while i < self.fields.len()
            invariant
                i <= self.fields@.len(),
                wanted@ == name@,
                forall|j: int|
                    0 <= j < i ==> !(same_but_case(#[trigger] self@.fields[j].0, name@)
                        && self@.fields[j].1 == value@),
            decreases self.fields@.len() - i,
        {
            assert(self@.fields[i as int] == (self.fields@[i as int].0@, self.fields@[i as int].1@));
            if eq_ignore_case(self.fields[i].0.as_slice(), wanted.as_slice()) && xml::same_text(
                text::string_of(self.fields[i].1.as_slice()).as_str(),
                value,
            ) {
                assert(same_but_case(self@.fields[i as int].0, name@));
                return true;
            }
            i += 1;
        }
        false
    }
}

// ---- Reading a head off a stream -------------------------------------------------

/// The octets of the blank line that ends a head, with the line end before it.
pub open spec fn blank_line() -> Seq<u8> {
    seq![0x0du8, 0x0a, 0x0d, 0x0a]
}

/// Just past the blank line that ends a head, if it is there.
pub open spec fn head_end(buffer: Seq<u8>) -> Option<int> {
    match text::find(buffer, blank_line()) {
        Some(k) => Some(k + 4),
        None => None,
    }
}

/// The offset just past the `CRLF CRLF` that ends an HTTP head.
pub fn find_blank_line(buffer: &[u8]) -> (r: Option<usize>)
    ensures
        match r {
            Some(end) => head_end(buffer@) == Some(end as int) && end <= buffer@.len(),
            None => head_end(buffer@) is None,
        },
{
    let pattern: [u8; 4] = [0x0d, 0x0a, 0x0d, 0x0a];
    assert(pattern@ =~= blank_line());
    let len: usize = buffer.len();
    match text::find_subslice(buffer, pattern.as_slice()) {
        Some(at) => Some(at + 4),
        None => None,
    }
}

/// Why no head could be read.
#[derive(Debug, Clone, Copy, PartialEq, Eq, Structural)]
pub enum Fault {
    /// More than [`MAX_HEAD`] octets came without a blank line.
    Endless,
    /// The peer stopped before the blank line.
    Closed,
    /// The head is not UTF-8.
    NotText,
}

/// What a buffer says about the head that it begins with: nothing until the blank line is
/// there; then the head as text, and the octets past it, which are not to be dropped.
pub open spec fn reading(buffer: Seq<u8>) -> Result<Option<(Seq<char>, Seq<u8>)>, Fault> {
    match head_end(buffer) {
        Some(end) => if utf8::valid_utf8(buffer.take(end)) {
            Ok(Some((utf8::decode_utf8(buffer.take(end)), buffer.skip(end))))
        } else {
            Err(Fault::NotText)
        },
        None => if buffer.len() > MAX_HEAD {
            Err(Fault::Endless)
        } else {
            Ok(None)
        },
    }
}

/// What is left in a buffer once it has been asked for its head: all of it, until the head is
/// there, and nothing after that. A head that is not text is dropped.
pub open spec fn left_over(buffer: Seq<u8>) -> Seq<u8> {
    match head_end(buffer) {
        Some(end) => if utf8::valid_utf8(buffer.take(end)) {
            Seq::empty()
        } else {
            buffer.skip(end)
        },
        None => buffer,
    }
}

/// Collects the octets of a head as they arrive.
///
/// The caller asks [`Reader::poll`] for the head, and as long as there is none it reads from
/// the peer and hands over what came with [`Reader::received`].
pub struct Reader {
    buffer: BytesMut,
}

impl View for Reader {
    type V = Seq<u8>;

    closed spec fn view(&self) -> Seq<u8> {
        octets::buffered(self.buffer)
    }
}

impl Reader {
    /// A reader that begins with octets that were read before.
    pub fn new(seed: BytesMut) -> (r: Reader)
        ensures
            r@ == octets::buffered(seed),
    {
        Reader { buffer: seed }
    }

    /// The head, once all of it has arrived, and the octets past it.
    ///
    /// # Errors
    ///
    /// Returns [`Fault::Endless`] where no blank line came within [`MAX_HEAD`] octets, and
    /// [`Fault::NotText`] where the head is not UTF-8.
    pub fn poll(&mut self) -> (r: Result<Option<(String, Bytes)>, Fault>)
        ensures
            reading(old(self)@) == (match r {
                Ok(Some((head, rest))) => Ok(Some((head@, octets::octets(rest)))),
                Ok(None) => Ok(None),
                Err(fault) => Err(fault),
            }),
            final(self)@ == left_over(old(self)@),
    {
        let ghost before = octets::buffered(self.buffer);
        match find_blank_line(octets::buffer_slice(&self.buffer)) {
            Some(end) => {
                let head = self.buffer.split_to(end);
                assert(octets::buffered(head) =~= before.take(end as int));
                assert(octets::buffered(self.buffer) =~= before.skip(end as int));
                match octets::str_from_utf8(octets::buffer_slice(&head)) {
                    None => Err(Fault::NotText),
                    Some(head) => {
                        proof {
                            utf8::encode_utf8_decode_utf8(head@);
                        }
                        let head = head.to_owned();
                        let rest = self.buffer.split().freeze();
                        assert(octets::octets(rest) =~= before.skip(end as int));
                        Ok(Some((head, rest)))
                    },
                }
            },
            None => {
                if self.buffer.len() > MAX_HEAD {
                    return Err(Fault::Endless);
                }
                Ok(None)
            },
        }
    }

    /// Takes in what one read from the peer gave, which is nothing where the peer stopped.
    ///
    /// # Errors
    ///
    /// Returns [`Fault::Closed`] where nothing was read.
    pub fn received(&mut self, chunk: &[u8]) -> (r: Result<(), Fault>)
        ensures
            r == (if chunk@.len() == 0 {
                Err::<(), Fault>(Fault::Closed)
            } else {
                Ok::<(), Fault>(())
            }),
            final(self)@ == old(self)@ + chunk@,
    {
        let ghost before = octets::buffered(self.buffer);
        if chunk.len() == 0 {
            assert(before + chunk@ =~= before);
            return Err(Fault::Closed);
        }
        self.buffer.extend_from_slice(chunk);
        Ok(())
    }
}

// ---- What holds of heads ---------------------------------------------------------

/// Whether a text can stand on one line.
pub open spec fn plain(line: Seq<char>) -> bool {
    forall|j: int| !(#[trigger] text::stands_at(line, line_end(), j))
}

/// The text of a head: its lines, each with its end, and the blank line.
pub open spec fn head_text(lines: Seq<Seq<char>>) -> Seq<char>
    decreases lines.len(),
{
    if lines.len() == 0 {
        line_end()
    } else {
        lines[0] + line_end() + head_text(lines.drop_first())
    }
}

/// Appends one line, made of three parts, and its end.
pub(crate) fn push_line(out: &mut String, a: &str, b: &str, c: &str)
    ensures
        final(out)@ == old(out)@ + (a@ + b@ + c@ + line_end()),
{
    let ghost before = out@;
    out.push_str(a);
    out.push_str(b);
    out.push_str(c);
    out.push('\r');
    out.push('\n');
    assert(out@ =~= before + (a@ + b@ + c@ + line_end()));
}

/// A line stops at the first line end, whatever follows.
proof fn lemma_first_line(line: Seq<char>, rest: Seq<char>)
    requires
        plain(line),
    ensures
        lines(line + line_end() + rest) == seq![line] + lines(rest),
{
    let s = line + line_end() + rest;
    let n = line.len() as int;
    assert(s.subrange(n, n + 2) =~= line_end());
    assert forall|j: int| 0 <= j < n implies !(#[trigger] text::stands_at(s, line_end(), j)) by {
        if text::stands_at(s, line_end(), j) {
            assert(s.subrange(j, j + 2)[0] == s[j]);
            assert(s.subrange(j, j + 2)[1] == s[j + 1]);
            if j + 1 < n {
                assert(line.subrange(j, j + 2) =~= line_end());
                assert(text::stands_at(line, line_end(), j));
            } else {
                assert(s[n] == line_end()[0]);
            }
        }
    }
    text::lemma_find_is(s, line_end(), n);
    assert(s.take(n) =~= line);
    assert(s.skip(n + 2) =~= rest);
}

/// A text without a line end in it is one line.
proof fn lemma_single_line(line: Seq<char>)
    requires
        plain(line),
    ensures
        lines(line) == seq![line],
{
    text::lemma_find_none(line, line_end());
}

/// Nothing stands on a line without characters.
proof fn lemma_empty_line()
    ensures
        plain(Seq::empty()),
        field(Seq::empty()) is None,
        lines(Seq::<char>::empty()) == seq![Seq::<char>::empty()],
{
    lemma_single_line(Seq::empty());
}

/// The lines of a head are those it was written from, with the blank line, and nothing after.
proof fn lemma_head_lines(written: Seq<Seq<char>>)
    requires
        forall|i: int| 0 <= i < written.len() ==> plain(#[trigger] written[i]),
    ensures
        lines(head_text(written)) == written + seq![Seq::<char>::empty(), Seq::<char>::empty()],
    decreases written.len(),
{
    lemma_empty_line();
    if written.len() == 0 {
        let none = Seq::<char>::empty();
        assert(head_text(written) =~= none + line_end() + none);
        lemma_first_line(none, none);
        assert(lines(head_text(written)) =~= written + seq![none, none]);
    } else {
        lemma_head_lines(written.drop_first());
        lemma_first_line(written[0], head_text(written.drop_first()));
        assert(lines(head_text(written)) =~= written + seq![
            Seq::<char>::empty(),
            Seq::<char>::empty(),
        ]);
    }
}

/// The header fields of some lines are not changed by blank lines after them.
proof fn lemma_fields_then_blank(lines: Seq<Seq<char>>)
    ensures
        fields(lines + seq![Seq::<char>::empty(), Seq::<char>::empty()]) == fields(lines),
    decreases lines.len(),
{
    lemma_empty_line();
    let none = Seq::<char>::empty();
    let all = lines + seq![none, none];
    if lines.len() == 0 {
        reveal_with_fuel(fields, 3);
        assert(all[0] == none && all[1] == none);
        assert(fields(all) =~= Seq::empty());
    } else {
        lemma_fields_then_blank(lines.drop_first());
        assert(all.drop_first() =~= lines.drop_first() + seq![none, none]);
    }
}

/// A head that is written reads back as its first line and the header fields of the others.
pub proof fn law_heads_round_trip(written: Seq<Seq<char>>)
    requires
        written.len() > 0,
        forall|i: int| 0 <= i < written.len() ==> plain(#[trigger] written[i]),
    ensures
        head(head_text(written)) == (HeadView {
            first: written[0],
            fields: fields(written.drop_first()),
        }),
{
    lemma_head_lines(written);
    let none = Seq::<char>::empty();
    lemma_fields_then_blank(written.drop_first());
    assert((written + seq![none, none]).drop_first() =~= written.drop_first() + seq![none, none]);
}

/// A header line is read as the name and the value that it was written from, but for white space
/// around the value.
pub proof fn law_fields_round_trip(name: Seq<char>, value: Seq<char>)
    requires
        forall|i: int| 0 <= i < name.len() ==> name[i] != ':',
        name == text::trimmed_white(name),
    ensures
        field(name + seq![':', ' '] + value) == Some((name, text::trimmed_white(value))),
{
    let line = name + seq![':', ' '] + value;
    let n = name.len() as int;
    text::lemma_until_is(line, text::just(':'), n);
    assert(line.take(n) =~= name);
    let rest = line.skip(n + 1);
    assert(rest.drop_first() =~= value);
    assert(text::trimmed_white(rest) == text::trimmed_white(value));
}

/// A word at the front of a text is its first word.
pub proof fn lemma_first_word(word: Seq<char>, rest: Seq<char>)
    requires
        word.len() > 0,
        forall|i: int| 0 <= i < word.len() ==> !text::is_white(#[trigger] word[i]),
        rest.len() > 0 ==> text::is_white(rest[0]),
    ensures
        words(word + rest) == seq![word] + words(rest),
{
    let s = word + rest;
    let white = |c: char| text::is_white(c);
    assert(s[0] == word[0]);
    assert(text::trimmed_start(s, white) == s);
    assert forall|i: int| 0 <= i < word.len() implies !white(#[trigger] s[i]) by {
        assert(s[i] == word[i]);
    }
    text::lemma_until_is(s, white, word.len() as int);
    assert(s.take(word.len() as int) =~= word);
    assert(s.skip(word.len() as int) =~= rest);
}

/// A space at the front of a text is part of no word.
pub proof fn lemma_leading_space(rest: Seq<char>)
    ensures
        words(seq![' '] + rest) == words(rest),
{
    let s = seq![' '] + rest;
    assert(s.drop_first() =~= rest);
}

/// Once a head has ended, octets that follow change nothing of it: they are only more of what
/// is past it.
pub proof fn law_heads_are_read_once(a: Seq<u8>, b: Seq<u8>)
    ensures
        reading(a) matches Ok(Some((head, rest))) ==> reading(a + b) == Ok::<
            Option<(Seq<char>, Seq<u8>)>,
            Fault,
        >(Some((head, rest + b))),
{
    text::lemma_find(a, blank_line());
    if let Some(k) = text::find(a, blank_line()) {
        let whole = a + b;
        assert forall|j: int| 0 <= j <= k implies #[trigger] text::stands_at(
            whole,
            blank_line(),
            j,
        ) == text::stands_at(a, blank_line(), j) by {
            assert(whole.subrange(j, j + 4) =~= a.subrange(j, j + 4));
        }
        text::lemma_find_is(whole, blank_line(), k);
        assert(whole.take(k + 4) =~= a.take(k + 4));
        assert(whole.skip(k + 4) =~= a.skip(k + 4) + b);
    }
}

/// The characters of the blank line that ends a head, with the line end before it.
spec fn blank_chars() -> Seq<char> {
    seq!['\r', '\n', '\r', '\n']
}

/// Octets below 0x80 at the front of an encoding are characters at the front of the text.
proof fn lemma_ascii_front(s: Seq<char>, pat: Seq<u8>)
    requires
        text::begins(utf8::encode_utf8(s), pat),
        forall|i: int| 0 <= i < pat.len() ==> pat[i] < 0x80,
    ensures
        pat.len() <= s.len(),
        forall|i: int| 0 <= i < pat.len() ==> s[i] as u32 == pat[i],
    decreases pat.len(),
{
    let all = utf8::encode_utf8(s);
    if pat.len() > 0 {
        assert(all.subrange(0, pat.len() as int)[0] == all[0]);
        let first = utf8::encode_scalar(s[0] as u32);
        assert(all[0] == first[0]);
        lemma_ascii_scalar(s[0]);
        let rest = pat.drop_first();
        assert(all.skip(1) =~= utf8::encode_utf8(s.drop_first()));
        assert(utf8::encode_utf8(s.drop_first()).subrange(0, rest.len() as int) =~= rest) by {
            assert(all.subrange(0, pat.len() as int) == pat);
            assert forall|i: int| 0 <= i < rest.len() implies all.skip(1)[i] == rest[i] by {
                assert(all.subrange(0, pat.len() as int)[i + 1] == all[i + 1]);
            }
        }
        lemma_ascii_front(s.drop_first(), rest);
        assert forall|i: int| 0 <= i < pat.len() implies s[i] as u32 == pat[i] by {
            if i > 0 {
                assert(s.drop_first()[i - 1] == s[i]);
                assert(rest[i - 1] == pat[i]);
            }
        }
    }
}

/// An octet below 0x80 encodes a character by itself, and is no part of the encoding of another.
proof fn lemma_ascii_scalar(c: char)
    ensures
        ({
            let e = utf8::encode_scalar(c as u32);
            &&& e.len() >= 1
            &&& e[0] < 0x80 ==> e.len() == 1 && e[0] == c as u32
            &&& forall|i: int| 1 <= i < e.len() ==> #[trigger] e[i] >= 0x80
        }),
{
    let v = c as u32;
    assert(v <= 0x7f ==> ((v & 0x7f) as u8) == v) by (bit_vector);
    assert(0xc0u8 | ((v >> 6) & 0x1f) as u8 >= 0x80) by (bit_vector);
    assert(0xe0u8 | ((v >> 12) & 0x0f) as u8 >= 0x80) by (bit_vector);
    assert(0xf0u8 | ((v >> 18) & 0x07) as u8 >= 0x80) by (bit_vector);
    assert(0x80u8 | (v & 0x3f) as u8 >= 0x80) by (bit_vector);
    assert(0x80u8 | ((v >> 6) & 0x3f) as u8 >= 0x80) by (bit_vector);
    assert(0x80u8 | ((v >> 12) & 0x3f) as u8 >= 0x80) by (bit_vector);
}

/// Where a blank line stands in an encoding, one stands in the text: the place in the text of
/// the place in the encoding.
proof fn lemma_blank_in_text(s: Seq<char>, j: int) -> (i: int)
    requires
        text::stands_at(utf8::encode_utf8(s), blank_line(), j),
    ensures
        text::stands_at(s, blank_chars(), i),
        utf8::encode_utf8(s.take(i)).len() == j,
    decreases s.len(),
{
    let all = utf8::encode_utf8(s);
    if j == 0 {
        lemma_ascii_front(s, blank_line());
        assert(s.subrange(0, 4) =~= blank_chars()) by {
            assert(s[0] as u32 == blank_line()[0] && s[1] as u32 == blank_line()[1]);
            assert(s[2] as u32 == blank_line()[2] && s[3] as u32 == blank_line()[3]);
            utf8::char_u32_cast(s[0], 0x0d);
            utf8::char_u32_cast(s[1], 0x0a);
            utf8::char_u32_cast(s[2], 0x0d);
            utf8::char_u32_cast(s[3], 0x0a);
        }
        assert(s.take(0) =~= Seq::empty());
        0
    } else {
        let first = utf8::encode_scalar(s[0] as u32);
        lemma_ascii_scalar(s[0]);
        let w = first.len() as int;
        assert(all.subrange(j, j + 4)[0] == all[j]);
        assert(all =~= first + utf8::encode_utf8(s.drop_first()));
        if j < w {
            assert(all[j] == first[j]);
        }
        let rest = utf8::encode_utf8(s.drop_first());
        assert(rest.subrange(j - w, j - w + 4) =~= all.subrange(j, j + 4));
        let i = lemma_blank_in_text(s.drop_first(), j - w);
        assert(s.subrange(i + 1, i + 5) =~= s.drop_first().subrange(i, i + 4));
        assert(s.take(i + 1).drop_first() =~= s.drop_first().take(i));
        i + 1
    }
}

/// In a head whose lines are none of them blank, the one blank line is the last.
proof fn lemma_one_blank_line(written: Seq<Seq<char>>, i: int)
    requires
        written.len() > 0,
        forall|k: int|
            0 <= k < written.len() ==> plain(#[trigger] written[k]) && written[k].len() > 0,
        text::stands_at(head_text(written), blank_chars(), i),
    ensures
        i == head_text(written).len() - 4,
    decreases written.len(),
{
    let s = head_text(written);
    let line = written[0];
    let n = line.len() as int;
    let tail = head_text(written.drop_first());
    assert(s =~= line + line_end() + tail);
    let found = s.subrange(i, i + 4);
    assert(found[0] == s[i] && found[1] == s[i + 1] && found[2] == s[i + 2] && found[3] == s[i + 3]);
    if i < n {
        if i + 1 < n {
            assert(line.subrange(i, i + 2) =~= line_end());
            assert(text::stands_at(line, line_end(), i));
        }
        assert(false);
    } else if i == n {
        assert(tail[0] == s[n + 2] && tail[1] == s[n + 3]);
        if written.len() > 1 {
            let next = written.drop_first()[0];
            assert(next == written[1]);
            if next.len() >= 2 {
                assert(next.subrange(0, 2) =~= line_end());
                assert(text::stands_at(next, line_end(), 0));
            }
            assert(false);
        }
    } else if i > n + 1 {
        assert(tail.subrange(i - n - 2, i - n + 2) =~= found);
        if written.len() > 1 {
            lemma_one_blank_line(written.drop_first(), i - n - 2);
        }
    }
}

/// A head ends with a blank line.
proof fn lemma_head_ends(written: Seq<Seq<char>>)
    requires
        written.len() > 0,
    ensures
        head_text(written).len() >= 4,
        head_text(written).skip(head_text(written).len() - 4) == blank_chars(),
    decreases written.len(),
{
    let s = head_text(written);
    let tail = head_text(written.drop_first());
    if written.len() == 1 {
        assert(written.drop_first().len() == 0);
        assert(s.skip(s.len() - 4) =~= blank_chars());
    } else {
        lemma_head_ends(written.drop_first());
        assert(s.skip(s.len() - 4) =~= tail.skip(tail.len() - 4));
    }
}

/// A head that is sent is read whole and as it was written, and what follows it is kept, so long
/// as every one of its lines can stand on a line and none is blank.
pub proof fn law_sent_heads_are_read(written: Seq<Seq<char>>, rest: Seq<u8>)
    requires
        written.len() > 0,
        forall|k: int|
            0 <= k < written.len() ==> plain(#[trigger] written[k]) && written[k].len() > 0,
    ensures
        reading(utf8::encode_utf8(head_text(written)) + rest) == Ok::<
            Option<(Seq<char>, Seq<u8>)>,
            Fault,
        >(Some((head_text(written), rest))),
{
    let s = head_text(written);
    let sent = utf8::encode_utf8(s);
    let buffer = sent + rest;
    lemma_head_ends(written);
    let front = s.take(s.len() - 4);
    assert(s =~= front + blank_chars());
    text::lemma_encode_concat(front, blank_chars());
    assert(utf8::is_ascii_chars(blank_chars()));
    utf8::is_ascii_chars_encode_utf8(blank_chars());
    assert(utf8::encode_utf8(blank_chars()) =~= blank_line());
    let at = utf8::encode_utf8(front).len() as int;
    assert(buffer.subrange(at, at + 4) =~= blank_line());
    assert forall|j: int| 0 <= j < at implies !(#[trigger] text::stands_at(
        buffer,
        blank_line(),
        j,
    )) by {
        if text::stands_at(buffer, blank_line(), j) {
            assert(sent.subrange(j, j + 4) =~= buffer.subrange(j, j + 4));
            let i = lemma_blank_in_text(s, j);
            lemma_one_blank_line(written, i);
            assert(s.take(i) =~= front);
        }
    }
    text::lemma_find_is(buffer, blank_line(), at);
    assert(buffer.take(at + 4) =~= sent);
    assert(buffer.skip(at + 4) =~= rest);
    utf8::encode_utf8_valid_utf8(s);
    utf8::encode_utf8_decode_utf8(s);
}

// ---- The lines of the heads that are sent ----------------------------------------

/// A line that names a field is plain where its value is, and reads back as the two.
pub proof fn lemma_written_field(line: Seq<char>, name: Seq<char>, value: Seq<char>)
    requires
        line == name + seq![':', ' '] + value,
        name.len() > 0,
        forall|i: int| 0 <= i < name.len() ==> name[i] != ':' && !text::is_white(name[i]),
        value == text::trimmed_white(value),
        plain(value),
    ensures
        plain(line),
        line.len() > 0,
        field(line) == Some((name, value)),
{
    text::lemma_trimmed_id(name, |c: char| text::is_white(c));
    law_fields_round_trip(name, value);
    lemma_plain_after(name + seq![':', ' '], value);
}

/// A text in which no line end can begin is plain with a plain text after it.
pub proof fn lemma_plain_after(front: Seq<char>, back: Seq<char>)
    requires
        forall|i: int| 0 <= i < front.len() ==> front[i] != '\r',
        plain(back),
    ensures
        plain(front + back),
{
    let s = front + back;
    let n = front.len() as int;
    assert forall|j: int| !(#[trigger] text::stands_at(s, line_end(), j)) by {
        if text::stands_at(s, line_end(), j) {
            assert(s.subrange(j, j + 2)[0] == s[j]);
            if j >= n {
                assert(back.subrange(j - n, j - n + 2) =~= s.subrange(j, j + 2));
                assert(text::stands_at(back, line_end(), j - n));
            }
        }
    }
}

/// A text in which no line end can begin is plain.
pub proof fn lemma_plain(s: Seq<char>)
    requires
        forall|i: int| 0 <= i < s.len() ==> s[i] != '\r',
    ensures
        plain(s),
{
    assert(plain(Seq::<char>::empty()));
    lemma_plain_after(s, Seq::empty());
    assert(s + Seq::<char>::empty() =~= s);
}

/// A value that is a token lists that token.
pub proof fn lemma_lists_itself(value: Seq<char>, token: Seq<char>)
    requires
        forall|i: int| 0 <= i < value.len() ==> value[i] != ',' && !text::is_white(value[i]),
        same_but_case(value, token),
    ensures
        lists(value, token),
{
    text::lemma_until_is(value, text::just(','), value.len() as int);
    text::lemma_trimmed_id(value, |c: char| text::is_white(c));
    assert(pieces(value) =~= seq![value]);
    assert(pieces(value)[0] == value);
}

/// A plain text stays plain with a text after it in which no line feed stands.
pub proof fn lemma_plain_before(front: Seq<char>, back: Seq<char>)
    requires
        plain(front),
        forall|i: int| 0 <= i < back.len() ==> back[i] != '\n',
    ensures
        plain(front + back),
{
    let s = front + back;
    let n = front.len() as int;
    assert forall|j: int| !(#[trigger] text::stands_at(s, line_end(), j)) by {
        if text::stands_at(s, line_end(), j) {
            assert(s.subrange(j, j + 2)[1] == s[j + 1]);
            if j + 1 < n {
                assert(front.subrange(j, j + 2) =~= s.subrange(j, j + 2));
                assert(text::stands_at(front, line_end(), j));
            }
        }
    }
}

/// The first line of a request is plain where the path is, and its first word is the method.
pub proof fn lemma_request_line(path: Seq<char>)
    requires
        plain(path),
    ensures
        ({
            let line = "GET "@ + path + " HTTP/1.1"@;
            &&& plain(line)
            &&& line.len() > 0
            &&& words(line).len() > 0
            &&& words(line)[0] == "GET"@
        }),
{
    reveal_strlit("GET ");
    reveal_strlit("GET");
    reveal_strlit(" HTTP/1.1");
    let line = "GET "@ + path + " HTTP/1.1"@;
    lemma_plain_before(path, " HTTP/1.1"@);
    lemma_plain_after("GET "@, path + " HTTP/1.1"@);
    assert(line =~= "GET "@ + (path + " HTTP/1.1"@));
    let rest = seq![' '] + path + " HTTP/1.1"@;
    assert(line =~= "GET"@ + rest);
    lemma_first_word("GET"@, rest);
}

/// A line with a value that is one word reads back as its name and that word.
pub proof fn lemma_fixed_value(line: Seq<char>, name: Seq<char>, value: Seq<char>)
    requires
        line =~= name + seq![':', ' '] + value,
        name.len() > 0,
        forall|i: int| 0 <= i < name.len() ==> name[i] != ':' && !text::is_white(name[i]),
        forall|i: int| 0 <= i < value.len() ==> !text::is_white(value[i]),
    ensures
        plain(line),
        line.len() > 0,
        field(line) == Some((name, value)),
{
    text::lemma_trimmed_id(value, |c: char| text::is_white(c));
    assert forall|i: int| 0 <= i < value.len() implies value[i] != '\r' by {
        assert(!text::is_white(value[i]));
    }
    lemma_plain(value);
    lemma_written_field(line, name, value);
}

/// The status line of an answer gives its status.
pub proof fn lemma_status_line()
    ensures
        plain("HTTP/1.1 101 Switching Protocols"@),
        "HTTP/1.1 101 Switching Protocols"@.len() > 0,
        status("HTTP/1.1 101 Switching Protocols"@) == Some(101u16),
{
    reveal_strlit("HTTP/1.1 101 Switching Protocols");
    reveal_strlit("HTTP/1.1");
    reveal_strlit("101");
    reveal_strlit(" Switching Protocols");
    let line = "HTTP/1.1 101 Switching Protocols"@;
    lemma_plain(line);
    let after = " Switching Protocols"@;
    assert(line =~= "HTTP/1.1"@ + (seq![' '] + ("101"@ + after)));
    lemma_first_word("HTTP/1.1"@, seq![' '] + ("101"@ + after));
    lemma_leading_space("101"@ + after);
    lemma_first_word("101"@, after);
    assert(words(line)[1] == "101"@);
    reveal_with_fuel(xml::digits_value, 4);
}

/// A head is read line by line, each line up to a carriage return and a line feed.
pub proof fn law_lines_end_in_crlf(line: Seq<char>, rest: Seq<char>)
    requires
        plain(line),
    ensures
        lines(line + seq!['\r', '\n'] + rest) == seq![line] + lines(rest),
        lines(line) == seq![line],
        head(line + seq!['\r', '\n'] + rest).first == line,
        head(line + seq!['\r', '\n'] + rest).fields == fields(lines(rest)),
{
    lemma_first_line(line, rest);
    lemma_single_line(line);
    assert((seq![line] + lines(rest)).drop_first() =~= lines(rest));
}

/// A header field is a name and a value around the first colon of a line, without white space
/// around either. A line without a colon is none, and fields keep the order of their lines.
pub proof fn law_fields_part_at_the_first_colon(
    name: Seq<char>,
    value: Seq<char>,
    bare: Seq<char>,
    more: Seq<Seq<char>>,
)
    requires
        forall|i: int| 0 <= i < name.len() ==> name[i] != ':',
        forall|i: int| 0 <= i < bare.len() ==> bare[i] != ':',
    ensures
        field(name + seq![':'] + value) == Some(
            (text::trimmed_white(name), text::trimmed_white(value)),
        ),
        field(bare) is None,
        fields(Seq::empty()) == Seq::<(Seq<char>, Seq<char>)>::empty(),
        fields(seq![name + seq![':'] + value] + more) == seq![
            (text::trimmed_white(name), text::trimmed_white(value)),
        ] + fields(more),
        fields(seq![bare] + more) == fields(more),
{
    let line = name + seq![':'] + value;
    let n = name.len() as int;
    assert forall|j: int| 0 <= j < n implies !(text::just(':'))(#[trigger] line[j]) by {
        assert(line[j] == name[j]);
    }
    assert(line[n] == ':');
    text::lemma_until_is(line, text::just(':'), n);
    assert(line.take(n) =~= name);
    assert(line.skip(n + 1) =~= value);
    text::lemma_until_is(bare, text::just(':'), bare.len() as int);
    assert((seq![line] + more).drop_first() =~= more);
    assert((seq![bare] + more).drop_first() =~= more);
    assert(Seq::<(Seq<char>, Seq<char>)>::empty() + fields(more) =~= fields(more));
}

/// Two characters are the same but for case where they are the same, or where one is a letter of
/// ASCII and the other that letter in the other case.
pub proof fn law_case_is_that_of_ascii(a: char, b: char)
    ensures
        lower(a) == lower(b) <==> {
            ||| a == b
            ||| 'A' <= a <= 'Z' && b as u32 == a as u32 + 32
            ||| 'A' <= b <= 'Z' && a as u32 == b as u32 + 32
        },
{
}

/// A value lists a token where one of the pieces between its commas is that token, in whatever
/// case and with whatever white space around it.
pub proof fn law_tokens_stand_between_commas(
    piece: Seq<char>,
    rest: Seq<char>,
    token: Seq<char>,
)
    requires
        forall|i: int| 0 <= i < piece.len() ==> piece[i] != ',',
    ensures
        lists(piece, token) <==> same_but_case(text::trimmed_white(piece), token),
        lists(piece + seq![','] + rest, token) <==> same_but_case(
            text::trimmed_white(piece),
            token,
        ) || lists(rest, token),
{
    let n = piece.len() as int;
    text::lemma_until_is(piece, text::just(','), n);
    assert(pieces(piece) =~= seq![piece]);
    let s = piece + seq![','] + rest;
    assert forall|j: int| 0 <= j < n implies !(text::just(','))(#[trigger] s[j]) by {
        assert(s[j] == piece[j]);
    }
    assert(s[n] == ',');
    text::lemma_until_is(s, text::just(','), n);
    assert(s.take(n) =~= piece);
    assert(s.skip(n + 1) =~= rest);
    let all = pieces(s);
    assert(all =~= seq![piece] + pieces(rest));
    if lists(rest, token) {
        let i = choose|i: int|
            0 <= i < pieces(rest).len() && same_but_case(
                text::trimmed_white(#[trigger] pieces(rest)[i]),
                token,
            );
        assert(all[i + 1] == pieces(rest)[i]);
    }
    if same_but_case(text::trimmed_white(piece), token) {
        assert(all[0] == piece);
        assert(pieces(piece)[0] == piece);
    }
    if lists(s, token) {
        let i = choose|i: int|
            0 <= i < all.len() && same_but_case(text::trimmed_white(#[trigger] all[i]), token);
        if i > 0 {
            assert(all[i] == pieces(rest)[i - 1]);
        }
    }
}

/// The words of a text stand between white space of any length.
pub proof fn law_words_stand_between_white_space(word: Seq<char>, space: char, rest: Seq<char>)
    requires
        word.len() > 0,
        forall|i: int| 0 <= i < word.len() ==> !text::is_white(#[trigger] word[i]),
        text::is_white(space),
    ensures
        words(Seq::empty()) == Seq::<Seq<char>>::empty(),
        words(seq![space] + rest) == words(rest),
        words(word) == seq![word],
        words(word + seq![space] + rest) == seq![word] + words(rest),
{
    let s = seq![space] + rest;
    assert(s.drop_first() =~= rest);
    assert(words(Seq::empty()) =~= Seq::<Seq<char>>::empty());
    lemma_first_word(word, Seq::empty());
    assert(word + Seq::<char>::empty() =~= word);
    assert(seq![word] + Seq::<Seq<char>>::empty() =~= seq![word]);
    lemma_first_word(word, s);
    assert(word + s =~= word + seq![space] + rest);
}

/// The status of a response is the second word of its first line, where that is a number of
/// sixteen bits.
pub proof fn law_the_status_is_the_second_word(line: Seq<char>, n: u16)
    ensures
        status(line) == Some(n) <==> words(line).len() >= 2 && xml::unsigned(words(line)[1], 10)
            == Some(n as nat),
        status(line) is None <==> words(line).len() < 2 || xml::unsigned(words(line)[1], 10) is None
            || xml::unsigned(words(line)[1], 10)->0 > 65535,
{
}

/// A head names a token where one of its fields of that name lists it; it has a value where one of
/// its fields of that name is that value; and what it gives for a name is the value of the first
/// field of that name. Names are the same in whatever case.
pub proof fn law_fields_are_found_by_name(
    h: HeadView,
    name: Seq<char>,
    other: Seq<char>,
    i: int,
)
    requires
        0 <= i < h.fields.len(),
    ensures
        same_but_case(h.fields[i].0, name) && lists(h.fields[i].1, other) ==> h.names(name, other),
        same_but_case(h.fields[i].0, name) && h.fields[i].1 == other ==> h.has(name, other),
        same_but_case(h.fields[i].0, name) && (forall|j: int|
            0 <= j < i ==> !same_but_case((#[trigger] h.fields[j]).0, name)) ==> h.value(name)
            == Some(h.fields[i].1),
        (forall|j: int|
            0 <= j < h.fields.len() ==> !same_but_case((#[trigger] h.fields[j]).0, name)) ==> {
            &&& h.value(name) is None
            &&& !h.names(name, other)
            &&& !h.has(name, other)
        },
{
    let stop = |f: (Seq<char>, Seq<char>)| same_but_case(f.0, name);
    if same_but_case(h.fields[i].0, name) && (forall|j: int|
        0 <= j < i ==> !same_but_case((#[trigger] h.fields[j]).0, name)) {
        assert(stop(h.fields[i]));
        assert forall|j: int| 0 <= j < i implies !stop(#[trigger] h.fields[j]) by {
            assert(!same_but_case(h.fields[j].0, name));
        }
        text::lemma_until_is(h.fields, stop, i);
    }
    if forall|j: int|
        0 <= j < h.fields.len() ==> !same_but_case((#[trigger] h.fields[j]).0, name) {
        assert forall|j: int| 0 <= j < h.fields.len() implies !stop(#[trigger] h.fields[j]) by {
            assert(!same_but_case(h.fields[j].0, name));
        }
        text::lemma_until_is(h.fields, stop, h.fields.len() as int);
    }
}

/// A head has come once its blank line has, and ends with it; it has to be text. What follows is
/// handed on. Sixteen kibioctets without a blank line are no head.
pub proof fn law_heads_end_at_their_blank_line(buffer: Seq<u8>)
    ensures
        match text::find(buffer, seq![13u8, 10, 13, 10]) {
            Some(k) => reading(buffer) == (if utf8::valid_utf8(buffer.take(k + 4)) {
                Ok::<Option<(Seq<char>, Seq<u8>)>, Fault>(
                    Some((utf8::decode_utf8(buffer.take(k + 4)), buffer.skip(k + 4))),
                )
            } else {
                Err(Fault::NotText)
            }),
            None => reading(buffer) == (if buffer.len() > 16384 {
                Err::<Option<(Seq<char>, Seq<u8>)>, Fault>(Fault::Endless)
            } else {
                Ok(None)
            }),
        },
        match text::find(buffer, seq![13u8, 10, 13, 10]) {
            Some(k) => left_over(buffer) == (if utf8::valid_utf8(buffer.take(k + 4)) {
                Seq::empty()
            } else {
                buffer.skip(k + 4)
            }),
            None => left_over(buffer) == buffer,
        },
{
}

/// A head is written line by line, each ended by a carriage return and a line feed, with an empty
/// one behind them.
pub proof fn law_heads_are_written_line_by_line(line: Seq<char>, more: Seq<Seq<char>>)
    ensures
        head_text(Seq::empty()) == seq!['\r', '\n'],
        head_text(seq![line] + more) == line + seq!['\r', '\n'] + head_text(more),
{
    assert((seq![line] + more).drop_first() =~= more);
}

} // verus!
