//! 256-bit digests: SHA-256 of a string of bytes, read as a number.

use vstd::prelude::*;
use crate::U256;
use crate::uint256::{be_value, hex_text, le_bytes};

verus! {

/// The text that `sha256::digest` returns for a string of bytes: its SHA-256
/// digest in hexadecimal.
pub uninterp spec fn sha256_hex(data: Seq<u8>) -> Seq<char>;

/// Whether the character is a hexadecimal digit in lower case.
pub open spec fn is_lower_hex_digit(c: char) -> bool {
    48 <= c as nat <= 57 || 97 <= c as nat <= 102
}

/// The value of a hexadecimal digit, in either case, if it is one.
pub open spec fn hex_digit_value(c: char) -> Option<nat> {
    let n = c as nat;
    if 48 <= n <= 57 {
        Some((n - 48) as nat)
    } else if 97 <= n <= 102 {
        Some((n - 87) as nat)
    } else if 65 <= n <= 70 {
        Some((n - 55) as nat)
    } else {
        None
    }
}

/// Whether the text is an even number of hexadecimal digits.
pub open spec fn is_hex_text(s: Seq<char>) -> bool {
    &&& s.len() % 2 == 0
    &&& forall|i: int| 0 <= i < s.len() ==> hex_digit_value(#[trigger] s[i]).is_some()
}

/// The bytes that a hexadecimal text stands for, two digits to a byte.
pub open spec fn hex_bytes(s: Seq<char>) -> Seq<u8> {
    Seq::new(
        s.len() / 2,
        |i: int| (16 * hex_digit_value(s[2 * i]).unwrap() + hex_digit_value(s[2 * i + 1]).unwrap()) as u8,
    )
}

/// Calls `sha256::digest` on a byte slice.
///
/// Trusted: the result is the text named `sha256_hex`, and it is 64
/// hexadecimal digits in lower case (the crate hex-encodes the 32 bytes of
/// the SHA-256 digest).
#[verifier::external_body]
fn sha256_digest(data: &[u8]) -> (hex: String)
    ensures
        hex@ == sha256_hex(data@),
        hex@.len() == 64,
        forall|i: int| 0 <= i < 64 ==> is_lower_hex_digit(#[trigger] hex@[i]),
{
    ::sha256::digest(data)
}

/// The error of `hex::decode`.
#[verifier::external_type_specification]
#[verifier::external_body]
pub struct ExFromHexError(hex::FromHexError);

/// Calls `hex::decode` on a text.
///
/// Trusted: decoding succeeds exactly on an even number of hexadecimal
/// digits, of either case, and then gives one byte for each two digits, the
/// first digit in the high half.
#[verifier::external_body]
fn hex_decode(text: &str) -> (r: Result<Vec<u8>, hex::FromHexError>)
    ensures
        r.is_ok() == is_hex_text(text@),
        r matches Ok(bytes) ==> bytes@ == hex_bytes(text@),
{
    hex::decode(text)
}

/// A 256-bit digest, compared as an unsigned number.
#[derive(Clone, Copy, Debug, PartialEq, Eq, Hash, Structural)]
pub struct Hash(pub U256);

/// The digest of a string of bytes: its SHA-256, read as a number with the
/// most significant byte first.
pub open spec fn spec_hash(data: Seq<u8>) -> Hash {
    Hash(U256::from_nat(be_value(hex_bytes(sha256_hex(data)))))
}

impl Hash {
    /// The digest of a string of bytes.
    pub fn hash(data: &[u8]) -> (h: Hash)
        ensures
            h == spec_hash(data@),
    {
        let hex = sha256_digest(data);
        proof {
            assert forall|i: int| 0 <= i < hex@.len() implies hex_digit_value(
                #[trigger] hex@[i],
            ).is_some() by {
                assert(is_lower_hex_digit(hex@[i]));
            }
        }
        match hex_decode(hex.as_str()) {
            Ok(bytes) => Hash(U256::from_big_endian(bytes.as_slice())),
            Err(_) => vstd::pervasive::unreached(),
        }
    }

    /// Whether the digest, as a number, is at most `target`.
    pub fn matches_target(&self, target: U256) -> (r: bool)
        ensures
            r == (self.0.value() <= target.value()),
    {
        self.0.le(&target)
    }

    /// The digest whose every bit is zero.
    pub fn zero() -> (h: Hash)
        ensures
            h == Hash(U256(0, 0, 0, 0)),
    {
        Hash(U256::zero())
    }

    /// The digest as a hexadecimal numeral, in lower case and without
    /// leading zeros.
    pub fn to_hex_string(&self) -> (s: String)
        ensures
            s@ == hex_text(self.0.value()),
    {
        self.0.to_hex_string()
    }

    /// The 32 bytes of the digest, least significant byte first.
    pub fn as_bytes(&self) -> (bytes: [u8; 32])
        ensures
            bytes@ == le_bytes(self.0.value(), 32),
    {
        self.0.to_little_endian()
    }
}

} // verus!
