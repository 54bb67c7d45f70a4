//! Hashes, addresses and bytes, written in hexadecimal.
use std::str::FromStr;
use vstd::prelude::*;

use crate::text::{append_chars, chars_of};
use crate::types::{Address, B256};

verus! {

/// The value of a hexadecimal digit.
pub open spec fn hex_value(c: char) -> Option<nat> {
    if '0' <= c <= '9' {
        Some((c as u32 - '0' as u32) as nat)
    } else if 'a' <= c <= 'f' {
        Some((c as u32 - 'a' as u32 + 10) as nat)
    } else if 'A' <= c <= 'F' {
        Some((c as u32 - 'A' as u32 + 10) as nat)
    } else {
        None
    }
}

/// The text without the prefix that marks hexadecimal numbers.
pub open spec fn without_prefix(s: Seq<char>) -> Seq<char> {
    if s.len() >= 2 && s[0] == '0' && (s[1] == 'x' || s[1] == 'X') {
        s.skip(2)
    } else {
        s
    }
}

/// Every character is a hexadecimal digit, and their number is even.
pub open spec fn is_hex(digits: Seq<char>) -> bool {
    &&& digits.len() % 2 == 0
    &&& forall|i: int| 0 <= i < digits.len() ==> hex_value(#[trigger] digits[i]) is Some
}

/// The bytes that the digits stand for, two digits for each.
pub open spec fn bytes_of_digits(digits: Seq<char>) -> Seq<u8> {
    Seq::new(
        digits.len() / 2,
        |i: int| (hex_value(digits[2 * i])->0 * 16 + hex_value(digits[2 * i + 1])->0) as u8,
    )
}

/// The bytes that a hexadecimal text stands for.
pub open spec fn hex_bytes(s: Seq<char>) -> Option<Seq<u8>> {
    let digits = without_prefix(s);
    if is_hex(digits) {
        Some(bytes_of_digits(digits))
    } else {
        None
    }
}

/// The bytes that a hexadecimal text stands for, if there are `count` of them.
pub open spec fn fixed_hex_bytes(s: Seq<char>, count: nat) -> Option<Seq<u8>> {
    match hex_bytes(s) {
        Some(bytes) => if bytes.len() == count {
            Some(bytes)
        } else {
            None
        },
        None => None,
    }
}

/// What a vector of bytes holds, where there is one.
pub open spec fn bytes_in(bytes: Option<Vec<u8>>) -> Option<Seq<u8>> {
    match bytes {
        Some(bytes) => Some(bytes@),
        None => None,
    }
}

/// `Bytes::from_str` of `alloy_primitives`: the bytes that the text stands for in hexadecimal,
/// with or without a prefix.
#[verifier::external_body]
pub(crate) fn parse_bytes(text: &str) -> (r: Option<Vec<u8>>)
    ensures
        bytes_in(r) == hex_bytes(text@),
{
    match alloy_primitives::Bytes::from_str(text) {
        Ok(bytes) => Some(bytes.to_vec()),
        Err(_) => None,
    }
}

/// `B256::from_str` of `alloy_primitives`: the 32 bytes that the text stands for in hexadecimal,
/// with or without a prefix.
#[verifier::external_body]
fn parse_32_bytes(text: &str) -> (r: Option<Vec<u8>>)
    ensures
        bytes_in(r) == fixed_hex_bytes(text@, 32),
{
    match alloy_primitives::B256::from_str(text) {
        Ok(hash) => Some(hash.to_vec()),
        Err(_) => None,
    }
}

/// `Address::from_str` of `alloy_primitives`: the 20 bytes that the text stands for in hexadecimal,
/// with or without a prefix and in upper or lower case.
#[verifier::external_body]
fn parse_20_bytes(text: &str) -> (r: Option<Vec<u8>>)
    ensures
        bytes_in(r) == fixed_hex_bytes(text@, 20),
{
    match alloy_primitives::Address::from_str(text) {
        Ok(address) => Some(address.to_vec()),
        Err(_) => None,
    }
}

/// The number that the bytes make up, the first being the most significant one.
pub open spec fn big_endian(bytes: Seq<u8>) -> nat
    decreases bytes.len(),
{
    if bytes.len() == 0 {
        0
    } else {
        big_endian(bytes.drop_last()) * 256 + bytes.last() as nat
    }
}

/// The power of 256 with the exponent.
pub open spec fn byte_power(exponent: nat) -> nat
    decreases exponent,
{
    if exponent == 0 {
        1
    } else {
        256 * byte_power((exponent - 1) as nat)
    }
}

proof fn lemma_big_endian_bound(bytes: Seq<u8>)
    ensures
        big_endian(bytes) < byte_power(bytes.len()),
    decreases bytes.len(),
{
    if bytes.len() > 0 {
        lemma_big_endian_bound(bytes.drop_last());
    }
}

proof fn lemma_power_grows(a: nat, b: nat)
    requires
        a <= b,
    ensures
        byte_power(a) <= byte_power(b),
    decreases b,
{
    if a < b {
        lemma_power_grows(a, (b - 1) as nat);
    }
}

proof fn lemma_power_16()
    ensures
        byte_power(16) == 0x1_0000_0000_0000_0000_0000_0000_0000_0000nat,
        byte_power(4) == 0x1_0000_0000nat,
{
    reveal_with_fuel(byte_power, 17);
}

/// Reads up to sixteen bytes as a number.
fn number_of_bytes(bytes: &[u8], from: usize, to: usize) -> (r: u128)
    requires
        from <= to <= bytes@.len(),
        to - from <= 16,
    ensures
        r == big_endian(bytes@.subrange(from as int, to as int)),
{
    let mut r: u128 = 0;
    assert(bytes@.subrange(from as int, from as int) =~= Seq::empty());
    for i in from..to
        invariant
            from <= i <= to <= bytes@.len(),
            to - from <= 16,
            r == big_endian(bytes@.subrange(from as int, i as int)),
    {
        let ghost next = bytes@.subrange(from as int, i + 1);
        proof {
            assert(next.drop_last() =~= bytes@.subrange(from as int, i as int));
            assert(next.last() == bytes@[i as int]);
            lemma_big_endian_bound(next);
            lemma_power_grows(next.len(), 16);
            lemma_power_16();
        }
        r = r * 256 + bytes[i] as u128;
    }
    r
}

/// The hash whose bytes these are.
pub open spec fn is_hash_of(hash: B256, bytes: Seq<u8>) -> bool {
    &&& bytes.len() == 32
    &&& hash.high == big_endian(bytes.subrange(0, 16))
    &&& hash.low == big_endian(bytes.subrange(16, 32))
}

/// The address whose bytes these are.
pub open spec fn is_address_of(address: Address, bytes: Seq<u8>) -> bool {
    &&& bytes.len() == 20
    &&& address.high == big_endian(bytes.subrange(0, 4))
    &&& address.low == big_endian(bytes.subrange(4, 20))
}

/// Reads a hash.
pub fn parse_hash(text: &str) -> (r: Option<B256>)
    ensures
        match fixed_hex_bytes(text@, 32) {
            Some(bytes) => r is Some && is_hash_of(r->0, bytes),
            None => r is None,
        },
{
    match parse_32_bytes(text) {
        Some(bytes) => Some(
            B256 { high: number_of_bytes(&bytes, 0, 16), low: number_of_bytes(&bytes, 16, 32) },
        ),
        None => None,
    }
}

/// Reads an address.
pub fn parse_address(text: &str) -> (r: Option<Address>)
    ensures
        match fixed_hex_bytes(text@, 20) {
            Some(bytes) => r is Some && is_address_of(r->0, bytes),
            None => r is None,
        },
{
    match parse_20_bytes(text) {
        Some(bytes) => {
            let high: u128 = number_of_bytes(&bytes, 0, 4);
            proof {
                lemma_big_endian_bound(bytes@.subrange(0, 4));
                lemma_power_16();
            }
            Some(Address { high: high as u32, low: number_of_bytes(&bytes, 4, 20) })
        },
        None => None,
    }
}

/// The character of a hexadecimal digit, in lower case.
pub open spec fn hex_char(digit: nat) -> char {
    if digit < 10 {
        (('0' as u32 + digit) as u32) as char
    } else {
        (('a' as u32 + digit - 10) as u32) as char
    }
}

/// The last `width` hexadecimal digits of a number.
pub open spec fn hex_digits(n: nat, width: nat) -> Seq<char>
    decreases width,
{
    if width == 0 {
        Seq::empty()
    } else {
        hex_digits(n / 16, (width - 1) as nat).push(hex_char(n % 16))
    }
}

/// Writes the last `width` hexadecimal digits of a number.
fn hex_digit_chars(n: u128, width: usize) -> (r: Vec<char>)
    ensures
        r@ == hex_digits(n as nat, width as nat),
    decreases width,
{
    if width == 0 {
        let r: Vec<char> = Vec::new();
        assert(r@ =~= hex_digits(n as nat, 0));
        r
    } else {
        let mut r = hex_digit_chars(n / 16, width - 1);
        let digit: u8 = (n % 16) as u8;
        let c = if digit < 10 {
            (48u8 + digit) as char
        } else {
            (87u8 + digit) as char
        };
        r.push(c);
        r
    }
}

/// A hash in hexadecimal.
pub open spec fn hash_text(hash: B256) -> Seq<char> {
    "0x"@ + hex_digits(hash.high as nat, 32) + hex_digits(hash.low as nat, 32)
}

/// An address in hexadecimal.
pub open spec fn address_text(address: Address) -> Seq<char> {
    "0x"@ + hex_digits(address.high as nat, 8) + hex_digits(address.low as nat, 32)
}

/// Writes [`hash_text`].
pub fn hash_chars(hash: B256) -> (r: Vec<char>)
    ensures
        r@ == hash_text(hash),
{
    let mut out = chars_of("0x");
    append_chars(&mut out, hex_digit_chars(hash.high, 32));
    append_chars(&mut out, hex_digit_chars(hash.low, 32));
    out
}

/// Writes [`address_text`].
pub fn address_chars(address: Address) -> (r: Vec<char>)
    ensures
        r@ == address_text(address),
{
    let mut out = chars_of("0x");
    append_chars(&mut out, hex_digit_chars(address.high as u128, 8));
    append_chars(&mut out, hex_digit_chars(address.low, 32));
    out
}

} // verus!
