//! Octet buffers: what the library relies on from the `bytes` crate and from the standard
//! library's UTF-8 strings.
//!
//! All but the two comparisons at the end is trusted: each contract is a claim about code outside
//! the library. Growing a buffer may still exhaust memory, as with any standard collection;
//! nothing below says otherwise.

use bytes::{Buf, BufMut, Bytes, BytesMut};
use vstd::prelude::*;
use vstd::string::*;
use vstd::utf8;

verus! {

/// [`Bytes`], a handle to octets that it shares with others.
#[verifier::external_type_specification]
#[verifier::external_body]
pub struct ExBytes(Bytes);

/// [`BytesMut`], a buffer of octets that can grow.
#[verifier::external_type_specification]
#[verifier::external_body]
pub struct ExBytesMut(BytesMut);

/// The octets a [`Bytes`] handle gives access to.
pub uninterp spec fn octets(b: Bytes) -> Seq<u8>;

/// The octets a [`BytesMut`] buffer holds.
pub uninterp spec fn buffered(b: BytesMut) -> Seq<u8>;

/// [`Bytes::new`] is the empty handle.
pub assume_specification[ Bytes::new ]() -> (b: Bytes)
    ensures
        octets(b) == Seq::<u8>::empty(),
;

/// [`Bytes::len`] is the number of octets.
pub assume_specification[ Bytes::len ](b: &Bytes) -> (n: usize)
    ensures
        n == octets(*b).len(),
;

/// [`Bytes::split_to`] keeps the octets from `at` on and returns those before it. It panics
/// past the end.
pub assume_specification[ Bytes::split_to ](b: &mut Bytes, at: usize) -> (front: Bytes)
    requires
        at <= octets(*old(b)).len(),
    ensures
        octets(front) == octets(*old(b)).subrange(0, at as int),
        octets(*final(b)) == octets(*old(b)).subrange(at as int, octets(*old(b)).len() as int),
;

/// `Bytes::clone` is a second handle to the same octets.
pub assume_specification[ <Bytes as Clone>::clone ](b: &Bytes) -> (r: Bytes)
    ensures
        octets(r) == octets(*b),
;

/// `Deref` for [`Bytes`] lends the octets as a slice.
#[verifier::external_body]
pub(crate) fn bytes_slice(b: &Bytes) -> (s: &[u8])
    ensures
        s@ == octets(*b),
{
    b
}

/// `From<String>` for [`Bytes`] takes the string's UTF-8 octets over.
#[verifier::external_body]
pub(crate) fn bytes_from_string(s: String) -> (b: Bytes)
    ensures
        octets(b) == utf8::encode_utf8(s@),
{
    Bytes::from(s)
}

/// [`BytesMut::new`] is the empty buffer.
pub assume_specification[ BytesMut::new ]() -> (b: BytesMut)
    ensures
        buffered(b) == Seq::<u8>::empty(),
;

/// [`BytesMut::len`] is the number of octets held.
pub assume_specification[ BytesMut::len ](b: &BytesMut) -> (n: usize)
    ensures
        n == buffered(*b).len(),
;

/// [`BytesMut::extend_from_slice`] appends.
pub assume_specification[ BytesMut::extend_from_slice ](b: &mut BytesMut, extend: &[u8])
    ensures
        buffered(*final(b)) == buffered(*old(b)) + extend@,
;

/// [`BytesMut::split_to`] keeps the octets from `at` on and returns those before it. It panics
/// past the end.
pub assume_specification[ BytesMut::split_to ](b: &mut BytesMut, at: usize) -> (front: BytesMut)
    requires
        at <= buffered(*old(b)).len(),
    ensures
        buffered(front) == buffered(*old(b)).subrange(0, at as int),
        buffered(*final(b)) == buffered(*old(b)).subrange(
            at as int,
            buffered(*old(b)).len() as int,
        ),
;

/// [`BytesMut::split`] empties the buffer and returns all that it held.
pub assume_specification[ BytesMut::split ](b: &mut BytesMut) -> (all: BytesMut)
    ensures
        buffered(all) == buffered(*old(b)),
        buffered(*final(b)) == Seq::<u8>::empty(),
;

/// [`BytesMut::freeze`] hands the octets over unchanged.
pub assume_specification[ BytesMut::freeze ](b: BytesMut) -> (r: Bytes)
    ensures
        octets(r) == buffered(b),
;

/// `BytesMut::clone` is a buffer of its own with the same octets.
pub assume_specification[ <BytesMut as Clone>::clone ](b: &BytesMut) -> (r: BytesMut)
    ensures
        buffered(r) == buffered(*b),
;

/// `Deref` for [`BytesMut`] lends the octets as a slice.
#[verifier::external_body]
pub(crate) fn buffer_slice(b: &BytesMut) -> (s: &[u8])
    ensures
        s@ == buffered(*b),
{
    b
}

/// `DerefMut` for [`BytesMut`] lends the octets as a slice that can be written to. The buffer
/// holds what is written there.
#[verifier::external_body]
pub(crate) fn buffer_slice_mut(b: &mut BytesMut) -> (s: &mut [u8])
    ensures
        s@ == buffered(*old(b)),
        buffered(*final(b)) == final(s)@,
{
    &mut b[..]
}

/// [`BufMut::put_u8`] appends one octet.
#[verifier::external_body]
pub(crate) fn put_u8(b: &mut BytesMut, octet: u8)
    ensures
        buffered(*final(b)) == buffered(*old(b)).push(octet),
{
    b.put_u8(octet)
}

/// [`Buf::advance`] drops the first `count` octets. It panics past the end.
#[verifier::external_body]
pub(crate) fn advance(b: &mut BytesMut, count: usize)
    requires
        count <= buffered(*old(b)).len(),
    ensures
        buffered(*final(b)) == buffered(*old(b)).subrange(
            count as int,
            buffered(*old(b)).len() as int,
        ),
{
    b.advance(count)
}

/// [`core::str::from_utf8`] accepts exactly the well-formed UTF-8 and lends it as a string.
#[verifier::external_body]
pub(crate) fn str_from_utf8(bytes: &[u8]) -> (r: Option<&str>)
    ensures
        r is Some <==> utf8::valid_utf8(bytes@),
        r matches Some(s) ==> s.spec_bytes() == bytes@,
{
    match core::str::from_utf8(bytes) {
        Ok(s) => Some(s),
        Err(_) => None,
    }
}

/// [`String::push`] appends one character.
pub assume_specification[ String::push ](s: &mut String, ch: char)
    ensures
        final(s)@ == old(s)@.push(ch),
;

/// [`String::push_str`] appends a string.
pub assume_specification[ String::push_str ](s: &mut String, string: &str)
    ensures
        final(s)@ == old(s)@ + string@,
;

/// [`char::from_u32`] gives the character of a Unicode scalar value, and nothing for any other
/// number.
pub assume_specification[ char::from_u32 ](i: u32) -> (r: Option<char>)
    ensures
        r == (if utf8::is_scalar(i) {
            Some(i as char)
        } else {
            None
        }),
;

/// Whether two runs of octets are the same.
pub fn same(a: &[u8], b: &[u8]) -> (r: bool)
    ensures
        r == (a@ == b@),
{
    if a.len() != b.len() {
        return false;
    }
    let mut i: usize = 0;
    while i < a.len()
        invariant
            i <= a@.len(),
            a@.len() == b@.len(),
            forall|j: int| 0 <= j < i ==> a@[j] == b@[j],
        decreases a@.len() - i,
    {
        if a[i] != b[i] {
            return false;
        }
        i += 1;
    }
    assert(a@ =~= b@);
    true
}

/// Whether `prefix` stands at the front of `s`.
pub fn starts_with(s: &[u8], prefix: &[u8]) -> (r: bool)
    ensures
        r == (prefix@.len() <= s@.len() && s@.subrange(0, prefix@.len() as int) == prefix@),
{
    if s.len() < prefix.len() {
        return false;
    }
    same(vstd::slice::slice_subrange(s, 0, prefix.len()), prefix)
}

} // verus!
