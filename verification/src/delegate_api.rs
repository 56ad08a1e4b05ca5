//! What the interface and the delegate say to each other.
//!
//! The delegate keeps the one thing that is private: the seed of the player's
//! key. It stays on the player's device, from one session to the next. The
//! delegate hands it out on request, since an account that cannot be taken
//! elsewhere is lost with the device.

use crate::crypto::{base58, base58_encode, blake3_digest, blake3_hash};
use vstd::prelude::*;
use vstd::string::*;

verus! {

/// What the account's seed is filed under.
pub const ACCOUNT_SEED_KEY: &'static str = "freechess:account-seed:v1";

/// What the nickname is filed under.
pub const NICKNAME_KEY: &'static str = "freechess:nickname:v1";

/// The code hashes of delegates that kept accounts once, the last first.
///
/// A delegate's secrets are filed under a key that its code decides, so that
/// any change to the code puts them out of reach. A client that finds no
/// account asks for one under each of these.
pub const LEGACY_DELEGATE_CODE_HASHES: [[u8; 32]; 0] = [];

/// The code hash that the delegate is expected to have.
pub const CURRENT_DELEGATE_CODE_HASH: [u8; 32] = [
    0xc1,
    0x70,
    0x4d,
    0x6b,
    0xdc,
    0xdb,
    0x50,
    0x78,
    0x4b,
    0xdc,
    0xed,
    0xf6,
    0x28,
    0x4e,
    0xb3,
    0x13,
    0x63,
    0xb7,
    0x9e,
    0x85,
    0x5e,
    0x5d,
    0xe9,
    0xd8,
    0xcc,
    0xb4,
    0x69,
    0x75,
    0xc8,
    0x1e,
    0x7e,
    0x3a,
];

/// The key of the delegate that has a code hash: with no parameters, the
/// digest of that hash.
pub fn delegate_key_for(code_hash: &[u8; 32]) -> (r: [u8; 32])
    ensures
        r == blake3_digest(code_hash@),
{
    blake3_hash(code_hash.as_slice())
}

/// The code hash of a delegate, and its key.
pub fn delegate_key_of(wasm: &[u8]) -> (r: ([u8; 32], [u8; 32]))
    ensures
        r.0 == blake3_digest(wasm@),
        r.1 == blake3_digest(blake3_digest(wasm@)@),
{
    let code_hash = blake3_hash(wasm);
    let key = delegate_key_for(&code_hash);
    (code_hash, key)
}

/// A code hash, or a delegate's key, in base 58.
pub fn digest_base58(digest: &[u8; 32]) -> (r: String)
    ensures
        r@ == base58(digest@),
{
    base58_encode(digest.as_slice())
}

/// A hexadecimal digit.
pub open spec fn hex_digit(n: int) -> char {
    "0123456789abcdef"@[n]
}

/// Bytes in hexadecimal, two digits each.
pub open spec fn hex_text(bytes: Seq<u8>) -> Seq<char>
    decreases bytes.len(),
{
    if bytes.len() == 0 {
        Seq::empty()
    } else {
        hex_text(bytes.drop_last()).push(hex_digit(bytes.last() as int / 16)).push(
            hex_digit(bytes.last() as int % 16),
        )
    }
}

/// A code hash in hexadecimal.
pub fn hex(bytes: &[u8; 32]) -> (r: String)
    ensures
        r@ == hex_text(bytes@),
{
    let all = "0123456789abcdef";
    proof {
        reveal_strlit("0123456789abcdef");
    }
    let mut out = String::new();
    let mut i: usize = 0;
    assert(bytes@.take(0) =~= Seq::<u8>::empty());
    while i < 32
        invariant
            i <= 32,
            all@ == "0123456789abcdef"@,
            all@.len() == 16,
            out@ == hex_text(bytes@.take(i as int)),
        decreases 32 - i,
    {
        let b: u8 = bytes[i];
        assert(bytes@.take(i + 1).drop_last() =~= bytes@.take(i as int));
        assert(bytes@.take(i + 1).last() == b);
        out.push(all.get_char((b / 16) as usize));
        out.push(all.get_char((b % 16) as usize));
        i = i + 1;
    }
    assert(bytes@.take(32) =~= bytes@);
    out
}

/// What the interface asks.
#[derive(Debug, PartialEq, Eq)]
pub enum ChessDelegateRequest {
    /// For the account, where there is one.
    GetAccount,
    /// To keep an account, new or brought from elsewhere.
    StoreAccount { seed: [u8; 32] },
    /// To forget the account.
    ClearAccount,
    /// To remember a nickname.
    SetNickname { nickname: String },
    GetNickname,
}

impl Clone for ChessDelegateRequest {
    fn clone(&self) -> (r: Self)
        ensures
            r == *self,
    {
        match self {
            ChessDelegateRequest::GetAccount => ChessDelegateRequest::GetAccount,
            ChessDelegateRequest::StoreAccount { seed } => ChessDelegateRequest::StoreAccount {
                seed: *seed,
            },
            ChessDelegateRequest::ClearAccount => ChessDelegateRequest::ClearAccount,
            ChessDelegateRequest::SetNickname { nickname } => ChessDelegateRequest::SetNickname {
                nickname: nickname.clone(),
            },
            ChessDelegateRequest::GetNickname => ChessDelegateRequest::GetNickname,
        }
    }
}

/// What the delegate answers.
#[derive(Debug, PartialEq, Eq)]
pub enum ChessDelegateResponse {
    /// The account, or that there is none.
    Account { seed: Option<[u8; 32]> },
    /// That it was done.
    Stored,
    Nickname { nickname: Option<String> },
    Error { message: String },
}

/// An answer by what it says.
#[verifier::ext_equal]
pub enum Answer {
    Account(Option<[u8; 32]>),
    Stored,
    Nickname(Option<Seq<char>>),
    Error(Seq<char>),
}

impl View for ChessDelegateResponse {
    type V = Answer;

    open spec fn view(&self) -> Answer {
        match *self {
            ChessDelegateResponse::Account { seed } => Answer::Account(seed),
            ChessDelegateResponse::Stored => Answer::Stored,
            ChessDelegateResponse::Nickname { nickname } => Answer::Nickname(
                match nickname {
                    Some(n) => Some(n@),
                    None => None,
                },
            ),
            ChessDelegateResponse::Error { message } => Answer::Error(message@),
        }
    }
}

impl Clone for ChessDelegateResponse {
    fn clone(&self) -> (r: Self)
        ensures
            r@ == self@,
    {
        match self {
            ChessDelegateResponse::Account { seed } => ChessDelegateResponse::Account {
                seed: *seed,
            },
            ChessDelegateResponse::Stored => ChessDelegateResponse::Stored,
            ChessDelegateResponse::Nickname { nickname } => ChessDelegateResponse::Nickname {
                nickname: match nickname {
                    Some(n) => Some(n.clone()),
                    None => None,
                },
            },
            ChessDelegateResponse::Error { message } => ChessDelegateResponse::Error {
                message: message.clone(),
            },
        }
    }
}

/// Bytes are written in two digits each, one byte after the other, the higher
/// digit first.
pub proof fn law_hex_has_two_digits_a_byte(bytes: Seq<u8>, i: int)
    requires
        0 <= i < bytes.len(),
    ensures
        hex_text(bytes).len() == 2 * bytes.len(),
        hex_text(bytes)[2 * i] == "0123456789abcdef"@[bytes[i] as int / 16],
        hex_text(bytes)[2 * i + 1] == "0123456789abcdef"@[bytes[i] as int % 16],
    decreases bytes.len(),
{
    let front = bytes.drop_last();
    if front.len() == 0 {
        assert(hex_text(front).len() == 0);
    } else {
        law_hex_has_two_digits_a_byte(front, if i < front.len() {
            i
        } else {
            0
        });
    }
}

} // verus!
