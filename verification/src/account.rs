//! Taking an account from one device to another.
//!
//! An account is a signing key. It is written as a version prefix and, in base
//! 58, the key's seed with a checksum, so that a mistyped character is told
//! from an account.

use crate::bytes::{array_from, bytes_between, push_all, same_bytes};
use crate::crypto::{
    alphanumeric, base58, base58_bytes, base58_decode, base58_encode, blake3_digest, blake3_hash,
    SigningKey,
};
use crate::identity::{id_of, PlayerId};
use crate::text::{chars_of, digits, text_between, trim_chars, trimmed, white_space, with_number};
use vstd::prelude::*;
use vstd::string::*;
use vstd::utf8::encode_utf8;

verus! {

/// The prefix that tells the format and its version.
pub const EXPORT_PREFIX: &'static str = "fchess1";

const CHECKSUM_LEN: usize = 4;

const SEED_LEN: usize = 32;

pub const CHECKSUM_DOMAIN: &'static str = "freechess:account-export:v1";

/// Why a text is no account.
#[derive(Debug, Clone, Copy, PartialEq, Eq, Structural)]
pub enum AccountError {
    BadPrefix,
    NotBase58,
    BadLength(usize),
    BadChecksum,
}

pub open spec fn account_error_text(e: AccountError) -> Seq<char> {
    match e {
        AccountError::BadPrefix => "not a FreeChess account key (should start with 'fchess1')"@,
        AccountError::NotBase58 => "account key contains invalid characters"@,
        AccountError::BadLength(n) => "account key has the wrong length ("@ + digits(n as nat)
            + " bytes)"@,
        AccountError::BadChecksum => "account key failed its checksum \u{2014} it was probably mistyped"@,
    }
}

impl AccountError {
    pub fn message(self) -> (r: String)
        ensures
            r@ == account_error_text(self),
    {
        match self {
            AccountError::BadPrefix =>
                "not a FreeChess account key (should start with 'fchess1')".to_string(),
            AccountError::NotBase58 => "account key contains invalid characters".to_string(),
            AccountError::BadLength(n) => with_number(
                "account key has the wrong length (",
                n as u128,
                " bytes)",
            ),
            AccountError::BadChecksum =>
                "account key failed its checksum \u{2014} it was probably mistyped".to_string(),
        }
    }
}

/// The four bytes by which a mistyped seed is told.
pub open spec fn seed_checksum(seed: Seq<u8>) -> Seq<u8> {
    blake3_digest(encode_utf8(CHECKSUM_DOMAIN@) + seed)@.take(4)
}

/// An account as text.
pub open spec fn account_text(seed: Seq<u8>) -> Seq<char> {
    EXPORT_PREFIX@ + base58(seed + seed_checksum(seed))
}

pub open spec fn starts_with(s: Seq<char>, prefix: Seq<char>) -> bool {
    s.len() >= prefix.len() && s.take(prefix.len() as int) == prefix
}

/// The seed that a text holds. White space around it does not count.
pub open spec fn account_seed(text: Seq<char>) -> Result<Seq<u8>, AccountError> {
    let t = trimmed(text);
    if !starts_with(t, EXPORT_PREFIX@) {
        Err(AccountError::BadPrefix)
    } else {
        match base58_bytes(t.skip(EXPORT_PREFIX@.len() as int)) {
            None => Err(AccountError::NotBase58),
            Some(bytes) => if bytes.len() != 36 {
                Err(AccountError::BadLength(bytes.len() as usize))
            } else if seed_checksum(bytes.take(32)) != bytes.skip(32) {
                Err(AccountError::BadChecksum)
            } else {
                Ok(bytes.take(32))
            },
        }
    }
}

fn checksum(seed: &[u8; 32]) -> (r: [u8; 4])
    ensures
        r@ == seed_checksum(seed@),
{
    let mut input: Vec<u8> = Vec::new();
    push_all(&mut input, CHECKSUM_DOMAIN.as_bytes());
    push_all(&mut input, seed.as_slice());
    assert(input@ =~= encode_utf8(CHECKSUM_DOMAIN@) + seed@);
    let digest = blake3_hash(input.as_slice());
    let r = array_from::<4>(digest.as_slice(), 0);
    assert(r@ =~= digest@.take(4));
    r
}

/// A text without white space at either end is what trimming leaves of it.
proof fn lemma_solid_text_is_trimmed(s: Seq<char>)
    requires
        s.len() > 0,
        !white_space(s[0]),
        !white_space(s.last()),
    ensures
        trimmed(s) == s,
{
}

/// Write an account as text. Reading the text gives the account back, with
/// whatever white space around it.
pub fn export(key: &SigningKey) -> (r: String)
    ensures
        r@ == account_text(key.0@),
        forall|text: Seq<char>| #[trigger] trimmed(text) == r@ ==> account_seed(text) == Ok::<
            Seq<u8>,
            AccountError,
        >(key.0@),
        trimmed(r@) == r@,
{
    let mut payload: Vec<u8> = Vec::new();
    push_all(&mut payload, key.0.as_slice());
    let sum = checksum(&key.0);
    push_all(&mut payload, sum.as_slice());
    assert(payload@ =~= key.0@ + seed_checksum(key.0@));
    let body = base58_encode(payload.as_slice());
    let mut out = EXPORT_PREFIX.to_string();
    out.push_str(body.as_str());
    proof {
        reveal_strlit("fchess1");
        assert(out@.take(EXPORT_PREFIX@.len() as int) =~= EXPORT_PREFIX@);
        assert(out@.skip(EXPORT_PREFIX@.len() as int) =~= body@);
        assert(payload@.take(32) =~= key.0@);
        assert(payload@.skip(32) =~= seed_checksum(key.0@));
        assert(out@[0] == 'f');
        if body@.len() > 0 {
            assert(out@.last() == body@.last());
            assert(alphanumeric(body@[body@.len() - 1]));
        } else {
            assert(out@.last() == '1');
        }
        lemma_solid_text_is_trimmed(out@);
    }
    out
}

/// Read an account from text.
pub fn import(text: &str) -> (r: Result<SigningKey, AccountError>)
    ensures
        match r {
            Ok(key) => account_seed(text@) == Ok::<Seq<u8>, AccountError>(key.0@),
            Err(e) => account_seed(text@) == Err::<Seq<u8>, AccountError>(e),
        },
{
    let cs = chars_of(text);
    let t = trim_chars(&cs);
    let prefix = chars_of(EXPORT_PREFIX);
    let ghost want = EXPORT_PREFIX@;
    if t.len() < prefix.len() {
        return Err(AccountError::BadPrefix);
    }
    let mut i: usize = 0;
    while i < prefix.len()
        invariant
            i <= prefix@.len() <= t@.len(),
            prefix@ == EXPORT_PREFIX@,
            t@ == trimmed(text@),
            forall|j: int| 0 <= j < i ==> t@[j] == prefix@[j],
        decreases prefix.len() - i,
    {
        if t[i] != prefix[i] {
            assert(t@.take(prefix@.len() as int)[i as int] != prefix@[i as int]);
            return Err(AccountError::BadPrefix);
        }
        i = i + 1;
    }
    assert(t@.take(prefix@.len() as int) =~= prefix@);
    let body = text_between(&t, prefix.len(), t.len());
    assert(body@ =~= t@.skip(prefix@.len() as int));
    let bytes = match base58_decode(body.as_str()) {
        Some(bytes) => bytes,
        None => return Err(AccountError::NotBase58),
    };
    if bytes.len() != SEED_LEN + CHECKSUM_LEN {
        return Err(AccountError::BadLength(bytes.len()));
    }
    let seed = array_from::<32>(bytes.as_slice(), 0);
    assert(seed@ =~= bytes@.take(32));
    let given = bytes_between(bytes.as_slice(), SEED_LEN, SEED_LEN + CHECKSUM_LEN);
    assert(given@ =~= bytes@.skip(32));
    if !same_bytes(checksum(&seed).as_slice(), given.as_slice()) {
        return Err(AccountError::BadChecksum);
    }
    Ok(SigningKey::from_bytes(&seed))
}

/// The player that an account's text would make one.
pub fn preview_id(text: &str) -> (r: Result<PlayerId, AccountError>)
    ensures
        match r {
            Ok(id) => exists|key: SigningKey|
                account_seed(text@) == Ok::<Seq<u8>, AccountError>(key.0@) && id == id_of(
                    #[trigger] key.public(),
                ),
            Err(e) => account_seed(text@) == Err::<Seq<u8>, AccountError>(e),
        },
{
    match import(text) {
        Ok(key) => {
            let public = key.verifying_key();
            Ok(PlayerId::from(&public))
        },
        Err(e) => Err(e),
    }
}

/// A text holds an account exactly where, white space aside, it is the prefix and
/// then, in base 58, a seed of 32 bytes and that seed's own checksum after it.
pub proof fn law_accounts_are_read_with_their_checksum(text: Seq<char>, seed: Seq<u8>)
    ensures
        account_seed(text) == Ok::<Seq<u8>, AccountError>(seed) <==> {
            let t = trimmed(text);
            &&& seed.len() == 32
            &&& t.len() >= 7
            &&& t.take(7) == "fchess1"@
            &&& base58_bytes(t.skip(7)) == Some(seed + seed_checksum(seed))
        },
        seed_checksum(seed).len() == 4,
{
    reveal_strlit("fchess1");
    let t = trimmed(text);
    assert("fchess1"@.len() == 7);
    if account_seed(text) == Ok::<Seq<u8>, AccountError>(seed) {
        let bytes = base58_bytes(t.skip(7))->0;
        assert(bytes =~= bytes.take(32) + bytes.skip(32));
    }
    if seed.len() == 32 {
        let bytes = seed + seed_checksum(seed);
        assert(bytes.take(32) =~= seed);
        assert(bytes.skip(32) =~= seed_checksum(seed));
    }
}

/// What is wrong with a text that holds no account: it does not start as one,
/// the rest is not in base 58, is not of 36 bytes, or has the wrong checksum.
pub proof fn law_bad_accounts_are_told_apart(text: Seq<char>)
    ensures
        ({
            let t = trimmed(text);
            let starts = t.len() >= 7 && t.take(7) == "fchess1"@;
            let body = base58_bytes(t.skip(7));
            &&& account_seed(text) == Err::<Seq<u8>, AccountError>(AccountError::BadPrefix)
                <==> !starts
            &&& account_seed(text) == Err::<Seq<u8>, AccountError>(AccountError::NotBase58)
                <==> starts && body is None
            &&& account_seed(text) == Err::<Seq<u8>, AccountError>(AccountError::BadChecksum)
                <==> starts && body is Some && body->0.len() == 36 && body->0.skip(32)
                != seed_checksum(body->0.take(32))
        }),
{
    reveal_strlit("fchess1");
    assert("fchess1"@.len() == 7);
}

} // verus!
