//! Who a player is, and which game is which.

use crate::bytes::{array_from, be_value, bytes_equal, bytes_less, lemma_be_value_injective};
use crate::crypto::{
    base58, base58_bytes, base58_decode, base58_encode, blake3_digest, blake3_hash,
    ed25519_verify, signature_fault, Signature, VerifyingKey,
};
use crate::sorted_map::Ranked;
use crate::text::{fault, join3};
use vstd::prelude::*;
use vstd::string::*;

verus! {

/// A player's handle: the first 16 bytes of the digest of their public key.
#[derive(Debug, Clone, Copy, PartialEq, Eq, Hash)]
pub struct PlayerId(pub [u8; 16]);

/// The handle of the player who holds a key.
pub open spec fn id_of(key: VerifyingKey) -> PlayerId {
    choose|id: PlayerId| id.0@ == blake3_digest(key.0@)@.take(16)
}

impl PlayerId {
    /// The handle of the player who holds a key.
    pub fn from(key: &VerifyingKey) -> (r: PlayerId)
        ensures
            r == id_of(*key),
    {
        let hash = blake3_hash(key.as_bytes().as_slice());
        let id = PlayerId(array_from::<16>(hash.as_slice(), 0));
        assert(id.0@ =~= blake3_digest(key.0@)@.take(16));
        assert(id_of(*key).0@ == id.0@);
        assert(id_of(*key).0 =~= id.0);
        id
    }

    /// Whether two are the same.
    pub fn same(&self, other: &Self) -> (r: bool)
        ensures
            r == (*self == *other),
    {
        bytes_equal(&self.0, &other.0)
    }

    pub fn to_base58(self) -> (r: String)
        ensures
            r@ == base58(self.0@),
            base58_bytes(r@) == Some(self.0@),
    {
        base58_encode(self.0.as_slice())
    }

    pub fn from_base58(s: &str) -> (r: Option<PlayerId>)
        ensures
            match r {
                Some(id) => base58_bytes(s@) == Some(id.0@),
                None => base58_bytes(s@) is None || base58_bytes(s@)->0.len() != 16,
            },
    {
        match base58_decode(s) {
            Some(bytes) => {
                if bytes.len() != 16 {
                    return None;
                }
                let id = PlayerId(array_from::<16>(bytes.as_slice(), 0));
                assert(id.0@ =~= bytes@);
                Some(id)
            },
            None => None,
        }
    }
}

impl Ranked for PlayerId {
    open spec fn rank(self) -> nat {
        be_value(self.0@)
    }

    fn precedes(&self, other: &Self) -> (r: bool) {
        bytes_less(&self.0, &other.0)
    }

    proof fn rank_decides(a: Self, b: Self) {
        lemma_be_value_injective(a.0@, b.0@);
        assert(a.0 =~= b.0);
    }
}

/// A game's name, and the proof that creating it took work.
#[derive(Debug, Clone, Copy, PartialEq, Eq, Hash)]
pub struct GameId(pub [u8; 32]);

impl GameId {
    /// Whether two are the same.
    pub fn same(&self, other: &Self) -> (r: bool)
        ensures
            r == (*self == *other),
    {
        bytes_equal(&self.0, &other.0)
    }

    pub fn to_base58(self) -> (r: String)
        ensures
            r@ == base58(self.0@),
            base58_bytes(r@) == Some(self.0@),
    {
        base58_encode(self.0.as_slice())
    }

    pub fn from_base58(s: &str) -> (r: Option<GameId>)
        ensures
            match r {
                Some(id) => base58_bytes(s@) == Some(id.0@),
                None => base58_bytes(s@) is None || base58_bytes(s@)->0.len() != 32,
            },
    {
        match base58_decode(s) {
            Some(bytes) => {
                if bytes.len() != 32 {
                    return None;
                }
                let id = GameId(array_from::<32>(bytes.as_slice(), 0));
                assert(id.0@ =~= bytes@);
                Some(id)
            },
            None => None,
        }
    }
}

impl Ranked for GameId {
    open spec fn rank(self) -> nat {
        be_value(self.0@)
    }

    fn precedes(&self, other: &Self) -> (r: bool) {
        bytes_less(&self.0, &other.0)
    }

    proof fn rank_decides(a: Self, b: Self) {
        lemma_be_value_injective(a.0@, b.0@);
        assert(a.0 =~= b.0);
    }
}

/// What is told of a signature that does not hold.
pub open spec fn sig_fault(
    key: VerifyingKey,
    message: Seq<u8>,
    signature: Signature,
    what: Seq<char>,
) -> Option<Seq<char>> {
    match signature_fault(key.0, message, signature.0) {
        None => None,
        Some(e) => Some("invalid signature on "@ + what + ": "@ + e),
    }
}

/// Check a signature.
pub fn verify_sig(key: &VerifyingKey, message: &[u8], signature: &Signature, what: &str) -> (r:
    Result<(), String>)
    ensures
        fault(r) == sig_fault(*key, message@, *signature, what@),
{
    match ed25519_verify(&key.0, message, &signature.0) {
        Ok(()) => Ok(()),
        Err(e) => {
            let mut text = join3("invalid signature on ", what, ": ");
            text.push_str(e.as_str());
            Err(text)
        },
    }
}

/// A short stand-in for a signature: the first eight bytes of its digest.
pub open spec fn digest_of(signature: Signature) -> u64 {
    be_value(blake3_digest(signature.0@)@.take(8)) as u64
}

/// A short stand-in for a signature, by which two peers tell whether they hold
/// the same record.
pub fn signature_digest(signature: &Signature) -> (r: u64)
    ensures
        r == digest_of(*signature),
{
    let hash = blake3_hash(signature.0.as_slice());
    let value = crate::bytes::read_be64(hash.as_slice(), 0);
    assert(hash@.subrange(0, 8) =~= hash@.take(8));
    value
}

} // verus!
