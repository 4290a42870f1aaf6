//! Byte strings as text.

use crate::bytes::{Address, B256};
use crate::hashing::keccak;
use vstd::prelude::*;

verus! {

/// A half of a byte: the upper one where `lower` is false.
pub open spec fn half(byte: u8, lower: bool) -> int {
    if lower {
        byte as int % 16
    } else {
        byte as int / 16
    }
}

/// The hexadecimal digit of a number below 16, in lower case.
pub open spec fn hex_digit(value: int) -> char {
    if value < 10 {
        ('0' as int + value) as char
    } else {
        ('a' as int + value - 10) as char
    }
}

/// The hexadecimal digits of some bytes, two for each, in lower case.
pub open spec fn hex_digits(data: Seq<u8>) -> Seq<char> {
    Seq::new(2 * data.len(), |i: int| hex_digit(half(data[i / 2], i % 2 == 1)))
}

/// The hexadecimal digits of an address, in which a letter is in upper case where the digit at
/// the same place of the Keccak-256 digest of the lower-case digits is 8 or more (EIP-55).
pub open spec fn checksum_digits(address: Seq<u8>) -> Seq<char> {
    let lower = hex_digits(address);
    let digest = keccak(lower.map_values(|c: char| c as u8))@;
    Seq::new(
        lower.len(),
        |i: int|
            if lower[i] as int >= 'a' as int && half(digest[i / 2], i % 2 == 1) >= 8 {
                (lower[i] as int - 'a' as int + 'A' as int) as char
            } else {
                lower[i]
            },
    )
}

/// Writes bytes as hexadecimal digits.
///
/// Calls `hex::encode`. What is claimed of it: the text holds two lower-case digits for each
/// byte, the upper half of the byte first.
#[verifier::external_body]
pub(crate) fn hex_text(data: &[u8]) -> (text: String)
    ensures
        text@ == hex_digits(data@),
{
    hex::encode(data)
}

/// Writes an address as text.
///
/// Calls the `Display` implementation of `alloy_primitives::Address`. What is claimed of it: the
/// text is `0x` and the checksummed digits of the address.
#[verifier::external_body]
pub(crate) fn address_text(address: &Address) -> (text: String)
    ensures
        text@ == seq!['0', 'x'] + checksum_digits(address@),
{
    format!("{}", alloy_primitives::Address::from(*address))
}

/// Writes a word as text.
///
/// Calls the `Display` implementation of `alloy_primitives::B256`. What is claimed of it: the
/// text is `0x` and the digits of the word in lower case.
#[verifier::external_body]
pub(crate) fn word_text(word: &B256) -> (text: String)
    ensures
        text@ == seq!['0', 'x'] + hex_digits(word@),
{
    format!("{}", alloy_primitives::B256::from(*word))
}

/// The digits of some bytes are two for each: that of the upper half, and then that of the lower.
pub proof fn law_two_digits_for_each_byte(data: Seq<u8>, i: int)
    requires
        0 <= i < data.len(),
    ensures
        hex_digits(data).len() == 2 * data.len(),
        hex_digits(data)[2 * i] == "0123456789abcdef"@[data[i] as int / 16],
        hex_digits(data)[2 * i + 1] == "0123456789abcdef"@[data[i] as int % 16],
{
    reveal_strlit("0123456789abcdef");
    assert((2 * i) / 2 == i && (2 * i) % 2 == 0 && (2 * i + 1) / 2 == i && (2 * i + 1) % 2 == 1);
    lemma_hex_digit(data[i] as int / 16);
    lemma_hex_digit(data[i] as int % 16);
}

proof fn lemma_hex_digit(value: int)
    requires
        0 <= value < 16,
    ensures
        hex_digit(value) == "0123456789abcdef"@[value],
{
    reveal_strlit("0123456789abcdef");
}

/// The checksummed digits of an address are its digits, but for the case of letters: a letter is
/// in upper case exactly where the digit at its place of the digest of the lower-case digits
/// (`ascii`) is 8 or more.
pub proof fn law_checksum_changes_case_only(address: Seq<u8>, ascii: Seq<u8>, i: int)
    requires
        0 <= i < 2 * address.len(),
        ascii.len() == 2 * address.len(),
        forall|k: int| 0 <= k < ascii.len() ==> #[trigger] ascii[k] == hex_digits(address)[k] as u8,
    ensures
        checksum_digits(address).len() == 2 * address.len(),
        ({
            let lower = hex_digits(address)[i];
            let digest = keccak(ascii)@;
            let digit = if i % 2 == 0 {
                digest[i / 2] as int / 16
            } else {
                digest[i / 2] as int % 16
            };
            checksum_digits(address)[i] == (if 'a' <= lower && digit >= 8 {
                (lower as int - 32) as char
            } else {
                lower
            })
        }),
{
    assert(ascii =~= hex_digits(address).map_values(|c: char| c as u8));
}

} // verus!
