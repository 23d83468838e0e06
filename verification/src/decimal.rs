//! Numbers as text: the decimal and hexadecimal renderings used on the wire and in messages.

#[allow(unused_imports)]
use crate::octets;
use bytes::BytesMut;
use vstd::prelude::*;

verus! {

/// The octet that writes the decimal digit `d`.
pub open spec fn digit_octet(d: int) -> u8 {
    (0x30 + d) as u8
}

/// `n` in decimal, most significant digit first and without leading zeros.
pub open spec fn decimal(n: nat) -> Seq<u8>
    decreases n,
{
    if n < 10 {
        seq![digit_octet(n as int)]
    } else {
        decimal(n / 10).push(digit_octet((n % 10) as int))
    }
}

/// The characters of `n` in decimal.
pub open spec fn decimal_text(n: nat) -> Seq<char> {
    decimal(n).map_values(|b: u8| b as char)
}

/// The character that writes the hexadecimal digit `d` in lower case.
pub open spec fn hex_digit(d: int) -> char {
    if d < 10 {
        (0x30 + d) as char
    } else {
        (0x61 + d - 10) as char
    }
}

/// `octet` as `0x` and two hexadecimal digits.
pub open spec fn hex_octet(octet: u8) -> Seq<char> {
    seq!['0', 'x', hex_digit(octet as int / 16), hex_digit(octet as int % 16)]
}

/// The number that a string of decimal digits writes.
pub open spec fn decimal_value(s: Seq<u8>) -> nat
    decreases s.len(),
{
    if s.len() == 0 {
        0
    } else {
        decimal_value(s.drop_last()) * 10 + (s.last() - 0x30) as nat
    }
}

/// Whether `b` is an ASCII decimal digit.
pub open spec fn is_digit(b: u8) -> bool {
    0x30 <= b <= 0x39
}

/// The decimal rendering of a number is made of digits, and reads back as that number.
pub proof fn lemma_decimal(n: nat)
    ensures
        decimal(n).len() >= 1,
        forall|i: int| 0 <= i < decimal(n).len() ==> is_digit(#[trigger] decimal(n)[i]),
        decimal_value(decimal(n)) == n,
    decreases n,
{
    reveal_with_fuel(decimal_value, 2);
    if n >= 10 {
        lemma_decimal(n / 10);
        assert(decimal(n).drop_last() =~= decimal(n / 10));
    } else {
        assert(decimal(n).drop_last() =~= Seq::<u8>::empty());
    }
}

/// A longer number takes at least as many digits.
pub proof fn lemma_decimal_len_monotonic(a: nat, b: nat)
    requires
        a <= b,
    ensures
        decimal(a).len() <= decimal(b).len(),
    decreases b,
{
    lemma_decimal(b);
    if a >= 10 {
        lemma_decimal_len_monotonic(a / 10, b / 10);
    }
}

/// A 32 bit number takes at most ten digits.
pub proof fn lemma_decimal_len_u32(n: u32)
    ensures
        1 <= decimal(n as nat).len() <= 10,
{
    lemma_decimal(n as nat);
    lemma_decimal_len_monotonic(n as nat, u32::MAX as nat);
    assert(decimal(u32::MAX as nat).len() == 10) by {
        reveal_with_fuel(decimal, 11);
    }
}

/// Decimal digit count of `value`, used to size a header without formatting it twice.
pub fn digits(value: u32) -> (n: usize)
    ensures
        n == decimal(value as nat).len(),
{
    let mut n: usize = 1;
    let mut v: u32 = value;
    proof {
        lemma_decimal_len_u32(value);
    }
    while v >= 10
        invariant
            decimal(value as nat).len() <= 10,
            decimal(value as nat).len() == n - 1 + decimal(v as nat).len(),
        decreases v,
    {
        proof {
            lemma_decimal((v / 10) as nat);
        }
        v /= 10;
        n += 1;
    }
    n
}

/// The decimal digits of `value`.
pub fn decimal_digits(value: u64) -> (out: Vec<u8>)
    ensures
        out@ == decimal(value as nat),
    decreases value,
{
    if value < 10 {
        let mut out: Vec<u8> = Vec::new();
        out.push(0x30u8 + value as u8);
        assert(out@ =~= decimal(value as nat));
        out
    } else {
        let mut out = decimal_digits(value / 10);
        out.push(0x30u8 + (value % 10) as u8);
        out
    }
}

/// Appends `value` in decimal to an octet buffer.
pub fn put_u32(dst: &mut BytesMut, value: u32)
    ensures
        octets::buffered(*final(dst)) == octets::buffered(*old(dst)) + decimal(value as nat),
{
    let out = decimal_digits(value as u64);
    dst.extend_from_slice(out.as_slice());
}

/// Appends `value` in decimal to a string.
pub fn push_decimal(dst: &mut String, value: u64)
    ensures
        final(dst)@ == old(dst)@ + decimal_text(value as nat),
{
    let out = decimal_digits(value);
    let ghost before = dst@;
    let mut i: usize = 0;
    while i < out.len()
        invariant
            i <= out.len(),
            out@ == decimal(value as nat),
            dst@ == before + decimal_text(value as nat).take(i as int),
        decreases out.len() - i,
    {
        dst.push(out[i] as char);
        i += 1;
        assert(decimal_text(value as nat).take(i as int) =~= decimal_text(value as nat).take(
            i - 1,
        ).push(decimal_text(value as nat)[i - 1]));
        assert(dst@ =~= before + decimal_text(value as nat).take(i as int));
    }
    assert(decimal_text(value as nat).take(i as int) =~= decimal_text(value as nat));
}

/// The hexadecimal digit `d`, in lower case.
pub(crate) fn hex_char(d: u8) -> (c: char)
    requires
        d < 16,
    ensures
        c == hex_digit(d as int),
{
    if d < 10 {
        (0x30u8 + d) as char
    } else {
        (0x61u8 + (d - 10)) as char
    }
}

/// Appends `octet` as `0x` and two hexadecimal digits.
pub fn push_hex(dst: &mut String, octet: u8)
    ensures
        final(dst)@ == old(dst)@ + hex_octet(octet),
{
    let ghost before = dst@;
    dst.push('0');
    dst.push('x');
    dst.push(hex_char(octet / 16));
    dst.push(hex_char(octet % 16));
    assert(dst@ =~= before + hex_octet(octet));
}

/// An octet is written in hexadecimal by two small digits behind `0x`, the high half first.
pub proof fn law_octets_are_written_in_hexadecimal(octet: u8)
    ensures
        hex_octet(octet) == seq![
            '0',
            'x',
            "0123456789abcdef"@[octet as int / 16],
            "0123456789abcdef"@[octet as int % 16],
        ],
{
    reveal_strlit("0123456789abcdef");
    let s = "0123456789abcdef"@;
    assert(forall|i: int| 0 <= i < 10 ==> #[trigger] s[i] == (0x30 + i) as char);
    assert(forall|i: int| 10 <= i < 16 ==> #[trigger] s[i] == (0x61 + i - 10) as char);
    assert(forall|i: int| 0 <= i < 16 ==> #[trigger] s[i] == hex_digit(i));
    assert(s[octet as int / 16] == hex_digit(octet as int / 16));
    assert(s[octet as int % 16] == hex_digit(octet as int % 16));
}

} // verus!
