//! Keys, signatures, digests and base 58, from the crates that compute them.

use crate::bytes::{array_from, bytes_equal};
use crate::text::{fault, join2};
use vstd::prelude::*;
use vstd::string::*;

verus! {

/// The BLAKE3 digest of a byte string.
pub uninterp spec fn blake3_digest(input: Seq<u8>) -> [u8; 32];

/// `blake3::hash`: the digest depends on the input alone.
#[verifier::external_body]
pub(crate) fn blake3_hash(input: &[u8]) -> (r: [u8; 32])
    ensures
        r == blake3_digest(input@),
{
    *blake3::hash(input).as_bytes()
}

/// The Ed25519 public key of a secret seed.
pub uninterp spec fn public_key(seed: [u8; 32]) -> [u8; 32];

/// The Ed25519 signature of a message under a secret seed.
pub uninterp spec fn signature_of(seed: [u8; 32], message: Seq<u8>) -> [u8; 64];

/// What Ed25519 verification says against a signature; `None` where it holds.
pub uninterp spec fn signature_fault(
    key: [u8; 32],
    message: Seq<u8>,
    signature: [u8; 64],
) -> Option<Seq<char>>;

/// What strict Ed25519 verification says against a signature.
pub uninterp spec fn strict_fault(
    key: [u8; 32],
    message: Seq<u8>,
    signature: [u8; 64],
) -> Option<Seq<char>>;

/// What is wrong with 32 bytes as an Ed25519 public key.
pub uninterp spec fn key_fault(key: [u8; 32]) -> Option<Seq<char>>;

/// `ed25519_dalek::SigningKey::verifying_key`: every seed has one public key.
#[verifier::external_body]
pub(crate) fn ed25519_public_key(seed: &[u8; 32]) -> (r: [u8; 32])
    ensures
        r == public_key(*seed),
{
    ed25519_dalek::SigningKey::from_bytes(seed).verifying_key().to_bytes()
}

/// `ed25519_dalek::SigningKey::sign`: the signature depends on the seed and
/// the message alone, and holds under the seed's public key.
#[verifier::external_body]
pub(crate) fn ed25519_sign(seed: &[u8; 32], message: &[u8]) -> (r: [u8; 64])
    ensures
        r == signature_of(*seed, message@),
        signature_fault(public_key(*seed), message@, r) is None,
{
    let key = ed25519_dalek::SigningKey::from_bytes(seed);
    ed25519_dalek::Signer::sign(&key, message).to_bytes()
}

/// `ed25519_dalek::VerifyingKey::verify`, on a key read by
/// `VerifyingKey::from_bytes`: the verdict depends on the arguments alone.
/// Where the bytes are no key at all, that is what is told.
#[verifier::external_body]
pub(crate) fn ed25519_verify(key: &[u8; 32], message: &[u8], signature: &[u8; 64]) -> (r: Result<
    (),
    String,
>)
    ensures
        fault(r) == signature_fault(*key, message@, *signature),
{
    let signature = ed25519_dalek::Signature::from_bytes(signature);
    ed25519_dalek::VerifyingKey::from_bytes(key).and_then(
        |k| ed25519_dalek::Verifier::verify(&k, message, &signature),
    ).map_err(|e| e.to_string())
}

/// `ed25519_dalek::VerifyingKey::verify_strict`, on a key read by
/// `VerifyingKey::from_bytes`: the verdict depends on the arguments alone.
#[verifier::external_body]
pub(crate) fn ed25519_verify_strict(
    key: &[u8; 32],
    message: &[u8],
    signature: &[u8; 64],
) -> (r: Result<(), String>)
    ensures
        fault(r) == strict_fault(*key, message@, *signature),
{
    let signature = ed25519_dalek::Signature::from_bytes(signature);
    ed25519_dalek::VerifyingKey::from_bytes(key).and_then(
        |k| k.verify_strict(message, &signature),
    ).map_err(|e| e.to_string())
}

/// `ed25519_dalek::VerifyingKey::from_bytes`: whether the bytes are a public
/// key depends on them alone.
#[verifier::external_body]
pub(crate) fn ed25519_check_key(key: &[u8; 32]) -> (r: Result<(), String>)
    ensures
        fault(r) == key_fault(*key),
{
    ed25519_dalek::VerifyingKey::from_bytes(key).map(|_| ()).map_err(|e| e.to_string())
}

/// A byte string in base 58, in Bitcoin's alphabet.
pub uninterp spec fn base58(bytes: Seq<u8>) -> Seq<char>;

/// The byte string that a text in base 58 stands for.
pub uninterp spec fn base58_bytes(text: Seq<char>) -> Option<Seq<u8>>;

/// An ASCII letter or digit.
pub open spec fn alphanumeric(c: char) -> bool {
    ('0' <= c && c <= '9') || ('A' <= c && c <= 'Z') || ('a' <= c && c <= 'z')
}

/// `bs58::encode(..).into_string()`: the text depends on the bytes alone, is
/// made of letters and digits, and decodes to the same bytes.
#[verifier::external_body]
pub(crate) fn base58_encode(bytes: &[u8]) -> (r: String)
    ensures
        r@ == base58(bytes@),
        base58_bytes(r@) == Some(bytes@),
        forall|i: int| 0 <= i < r@.len() ==> alphanumeric(#[trigger] r@[i]),
{
    bs58::encode(bytes).into_string()
}

/// `bs58::decode(..).into_vec()`: the bytes depend on the text alone.
#[verifier::external_body]
pub(crate) fn base58_decode(text: &str) -> (r: Option<Vec<u8>>)
    ensures
        match r {
            Some(bytes) => base58_bytes(text@) == Some(bytes@),
            None => base58_bytes(text@) is None,
        },
{
    bs58::decode(text).into_vec().ok()
}

/// A player's public key.
#[derive(Debug, Clone, Copy, PartialEq, Eq, Hash)]
pub struct VerifyingKey(pub [u8; 32]);

impl VerifyingKey {
    /// Whether two are the same.
    pub fn same(&self, other: &Self) -> (r: bool)
        ensures
            r == (*self == *other),
    {
        bytes_equal(&self.0, &other.0)
    }

    pub fn as_bytes(&self) -> (r: &[u8; 32])
        ensures
            *r == self.0,
    {
        &self.0
    }

    pub fn to_bytes(&self) -> (r: [u8; 32])
        ensures
            r == self.0,
    {
        self.0
    }

    /// The key in base 58.
    pub fn to_base58(&self) -> (r: String)
        ensures
            r@ == base58(self.0@),
    {
        base58_encode(self.0.as_slice())
    }

    /// Read a public key, refusing bytes that are none.
    pub fn from_bytes(bytes: &[u8; 32]) -> (r: Result<VerifyingKey, String>)
        ensures
            match r {
                Ok(key) => key_fault(*bytes) is None && key == VerifyingKey(*bytes),
                Err(e) => key_fault(*bytes) == Some(e@),
            },
    {
        match ed25519_check_key(bytes) {
            Ok(()) => Ok(VerifyingKey(*bytes)),
            Err(e) => Err(e),
        }
    }

    /// Read a public key from bytes of any number; `what` is what to call it
    /// where there are too many or too few.
    pub fn read(bytes: &[u8], what: &str) -> (r: Result<VerifyingKey, String>)
        ensures
            match r {
                Ok(key) => key.0@ == bytes@ && key_fault(key.0) is None,
                Err(e) => if bytes@.len() == 32 {
                    exists|key: VerifyingKey| #[trigger] key.0@ == bytes@ && key_fault(key.0) == Some(
                        e@,
                    )
                } else {
                    e@ == what@ + " must be 32 bytes"@
                },
            },
    {
        if bytes.len() != 32 {
            return Err(join2(what, " must be 32 bytes"));
        }
        let array: [u8; 32] = array_from::<32>(bytes, 0);
        let ghost key = VerifyingKey(array);
        assert(key.0@ =~= bytes@);
        VerifyingKey::from_bytes(&array)
    }
}

/// A signature.
#[derive(Debug, Clone, Copy, PartialEq, Eq, Hash)]
pub struct Signature(pub [u8; 64]);

impl Signature {
    /// Whether two are the same.
    pub fn same(&self, other: &Self) -> (r: bool)
        ensures
            r == (*self == *other),
    {
        bytes_equal(&self.0, &other.0)
    }

    pub fn to_bytes(&self) -> (r: [u8; 64])
        ensures
            r == self.0,
    {
        self.0
    }

    /// Read a signature from bytes of any number.
    pub fn read(bytes: &[u8]) -> (r: Result<Signature, String>)
        ensures
            match r {
                Ok(signature) => signature.0@ == bytes@,
                Err(e) => bytes@.len() != 64 && e@ == "signature must be 64 bytes"@,
            },
    {
        if bytes.len() != 64 {
            return Err("signature must be 64 bytes".to_string());
        }
        let array: [u8; 64] = array_from::<64>(bytes, 0);
        assert(array@ =~= bytes@);
        Ok(Signature(array))
    }
}

/// A player's secret: the seed of an Ed25519 key pair.
#[derive(Debug, Clone, Copy, PartialEq, Eq, Hash)]
pub struct SigningKey(pub [u8; 32]);

impl SigningKey {
    /// Whether two are the same.
    pub fn same(&self, other: &Self) -> (r: bool)
        ensures
            r == (*self == *other),
    {
        bytes_equal(&self.0, &other.0)
    }

    /// The public half.
    pub open spec fn public(self) -> VerifyingKey {
        VerifyingKey(public_key(self.0))
    }

    /// What this key signs a message with.
    pub open spec fn signed(self, message: Seq<u8>) -> Signature {
        Signature(signature_of(self.0, message))
    }

    pub fn from_bytes(seed: &[u8; 32]) -> (r: SigningKey)
        ensures
            r.0 == *seed,
    {
        SigningKey(*seed)
    }

    pub fn to_bytes(&self) -> (r: [u8; 32])
        ensures
            r == self.0,
    {
        self.0
    }

    pub fn verifying_key(&self) -> (r: VerifyingKey)
        ensures
            r == self.public(),
    {
        VerifyingKey(ed25519_public_key(&self.0))
    }

    pub fn sign(&self, message: &[u8]) -> (r: Signature)
        ensures
            r == self.signed(message@),
            signature_fault(self.public().0, message@, r.0) is None,
    {
        Signature(ed25519_sign(&self.0, message))
    }
}

} // verus!
