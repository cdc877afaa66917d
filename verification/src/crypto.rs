//! Public keys and signatures over secp256k1, held as their bytes.

use vstd::prelude::*;
use crate::uint256::le_bytes;

verus! {

/// Whether `signature` is a valid ECDSA signature over secp256k1, with
/// SHA-256, of `message` under the public key `key`: what `k256` answers for
/// the three strings of bytes, and `false` where one of them does not parse.
pub uninterp spec fn ecdsa_valid(key: Seq<u8>, message: Seq<u8>, signature: Seq<u8>) -> bool;

/// Checks a signature with `k256`.
///
/// Trusted: the answer is the one named `ecdsa_valid`. The key is read with
/// `VerifyingKey::from_sec1_bytes`, the signature with
/// `Signature::from_slice` (64 bytes, `r` then `s`), and the check is
/// `Verifier::verify`; a key or signature that does not parse gives `false`.
#[verifier::external_body]
fn ecdsa_verify(key: &[u8], message: &[u8], signature: &[u8]) -> (ok: bool)
    ensures
        ok == ecdsa_valid(key@, message@, signature@),
{
    let key = k256::ecdsa::VerifyingKey::from_sec1_bytes(key);
    let signature = k256::ecdsa::Signature::from_slice(signature);
    match (key, signature) {
        (Ok(key), Ok(signature)) => k256::ecdsa::signature::Verifier::verify(
            &key,
            message,
            &signature,
        ).is_ok(),
        _ => false,
    }
}

/// A public key, as its SEC1 encoding.
#[derive(Debug, PartialEq, Eq)]
pub struct PublicKey {
    pub bytes: Vec<u8>,
}

impl View for PublicKey {
    type V = Seq<u8>;

    open spec fn view(&self) -> Seq<u8> {
        self.bytes@
    }
}

impl Clone for PublicKey {
    fn clone(&self) -> (r: Self)
        ensures
            r@ == self@,
    {
        PublicKey { bytes: self.bytes.clone() }
    }
}

impl PublicKey {
    /// A key from its SEC1 encoding.
    pub fn new(bytes: Vec<u8>) -> (key: PublicKey)
        ensures
            key@ == bytes@,
    {
        PublicKey { bytes }
    }
}

/// A signature, as the 64 bytes of `r` and `s`.
#[derive(Debug, PartialEq, Eq)]
pub struct Signature {
    pub bytes: Vec<u8>,
}

impl View for Signature {
    type V = Seq<u8>;

    open spec fn view(&self) -> Seq<u8> {
        self.bytes@
    }
}

impl Clone for Signature {
    fn clone(&self) -> (r: Self)
        ensures
            r@ == self@,
    {
        Signature { bytes: self.bytes.clone() }
    }
}

/// Whether `signature` authorises spending the output recorded under
/// `output_hash`, whose owner has the public key `key`: the signed message
/// is the 32 bytes of the digest, least significant first.
pub open spec fn spec_verify(signature: Seq<u8>, output_hash: crate::sha256::Hash, key: Seq<u8>) -> bool {
    ecdsa_valid(key, le_bytes(output_hash.0.value(), 32), signature)
}

impl Signature {
    /// A signature from its bytes.
    pub fn new(bytes: Vec<u8>) -> (signature: Signature)
        ensures
            signature@ == bytes@,
    {
        Signature { bytes }
    }

    /// Whether this signature authorises spending the output recorded under
    /// `output_hash` and owned by `public_key`.
    pub fn verify(&self, output_hash: &crate::sha256::Hash, public_key: &PublicKey) -> (ok: bool)
        ensures
            ok == spec_verify(self@, *output_hash, public_key@),
    {
        let message = output_hash.as_bytes();
        ecdsa_verify(public_key.bytes.as_slice(), message.as_slice(), self.bytes.as_slice())
    }
}

} // verus!
