//! The delegate: what it does with its store of secrets, and what it answers.
//!
//! A request leads to one step on the store. What the store gave back decides
//! the answer.

use crate::bytes::array_from;
use crate::delegate_api::{
    Answer, ChessDelegateRequest, ChessDelegateResponse, ACCOUNT_SEED_KEY, NICKNAME_KEY,
};
use crate::text::{digits, with_number};
use vstd::prelude::*;
use vstd::string::*;
use vstd::utf8::{decode_utf8, encode_utf8, valid_utf8};

verus! {

/// `String::from_utf8`: the text that the bytes are in UTF-8, where they are
/// any.
#[verifier::external_body]
pub(crate) fn text_from_utf8(bytes: Vec<u8>) -> (r: Option<String>)
    ensures
        match r {
            Some(s) => valid_utf8(bytes@) && s@ == decode_utf8(bytes@),
            None => !valid_utf8(bytes@),
        },
{
    String::from_utf8(bytes).ok()
}

/// What the delegate keeps.
#[derive(Debug, Clone, Copy, PartialEq, Eq, Structural)]
pub enum Secret {
    AccountSeed,
    Nickname,
}

pub open spec fn secret_key(secret: Secret) -> Seq<char> {
    match secret {
        Secret::AccountSeed => ACCOUNT_SEED_KEY@,
        Secret::Nickname => NICKNAME_KEY@,
    }
}

impl Secret {
    /// What the secret is filed under.
    pub fn key(self) -> (r: &'static str)
        ensures
            r@ == secret_key(self),
    {
        match self {
            Secret::AccountSeed => ACCOUNT_SEED_KEY,
            Secret::Nickname => NICKNAME_KEY,
        }
    }
}

/// A step on the store of secrets.
#[derive(Debug, PartialEq, Eq)]
pub enum DelegateStep {
    Read(Secret),
    Write(Secret, Vec<u8>),
    /// Remove all that there is.
    Clear,
}

/// A step by what it does.
#[verifier::ext_equal]
pub enum StepView {
    Read(Secret),
    Write(Secret, Seq<u8>),
    Clear,
}

impl View for DelegateStep {
    type V = StepView;

    open spec fn view(&self) -> StepView {
        match *self {
            DelegateStep::Read(s) => StepView::Read(s),
            DelegateStep::Write(s, bytes) => StepView::Write(s, bytes@),
            DelegateStep::Clear => StepView::Clear,
        }
    }
}

/// The step that a request leads to.
pub open spec fn step_for(request: ChessDelegateRequest) -> StepView {
    match request {
        ChessDelegateRequest::GetAccount => StepView::Read(Secret::AccountSeed),
        ChessDelegateRequest::StoreAccount { seed } => StepView::Write(Secret::AccountSeed, seed@),
        ChessDelegateRequest::ClearAccount => StepView::Clear,
        ChessDelegateRequest::SetNickname { nickname } => StepView::Write(
            Secret::Nickname,
            encode_utf8(nickname@),
        ),
        ChessDelegateRequest::GetNickname => StepView::Read(Secret::Nickname),
    }
}

/// The 32 bytes of a seed.
pub open spec fn seed_of(bytes: Seq<u8>) -> [u8; 32] {
    choose|seed: [u8; 32]| #[trigger] seed@ == bytes
}

/// The answer where a secret was read.
pub open spec fn answer_to_read(secret: Secret, found: Option<Seq<u8>>) -> Answer {
    match secret {
        Secret::AccountSeed => match found {
            Some(bytes) => if bytes.len() == 32 {
                Answer::Account(Some(seed_of(bytes)))
            } else {
                Answer::Error(
                    "stored account seed is "@ + digits(bytes.len()) + " bytes, expected 32"@,
                )
            },
            None => Answer::Account(None),
        },
        Secret::Nickname => match found {
            Some(bytes) => if valid_utf8(bytes) {
                Answer::Nickname(Some(decode_utf8(bytes)))
            } else {
                Answer::Nickname(None)
            },
            None => Answer::Nickname(None),
        },
    }
}

/// The answer where a secret was written, or was not taken.
pub open spec fn answer_to_write(secret: Secret, taken: bool) -> Answer {
    if taken {
        Answer::Stored
    } else {
        match secret {
            Secret::AccountSeed => Answer::Error("the secret store rejected the account seed"@),
            Secret::Nickname => Answer::Error("the secret store rejected the nickname"@),
        }
    }
}

/// The delegate.
#[derive(Debug, Clone, Copy, PartialEq, Eq)]
pub struct ChessDelegate;

impl ChessDelegate {
    /// The step that a request leads to.
    pub fn step(request: ChessDelegateRequest) -> (r: DelegateStep)
        ensures
            r@ == step_for(request),
    {
        match request {
            ChessDelegateRequest::GetAccount => DelegateStep::Read(Secret::AccountSeed),
            ChessDelegateRequest::StoreAccount { seed } => DelegateStep::Write(
                Secret::AccountSeed,
                vstd::slice::slice_to_vec(seed.as_slice()),
            ),
            ChessDelegateRequest::ClearAccount => DelegateStep::Clear,
            ChessDelegateRequest::SetNickname { nickname } => DelegateStep::Write(
                Secret::Nickname,
                nickname.as_str().as_bytes_vec(),
            ),
            ChessDelegateRequest::GetNickname => DelegateStep::Read(Secret::Nickname),
        }
    }

    /// The answer, given what a read found.
    pub fn after_read(secret: Secret, found: Option<Vec<u8>>) -> (r: ChessDelegateResponse)
        ensures
            r@ == answer_to_read(
                secret,
                match found {
                    Some(bytes) => Some(bytes@),
                    None => None,
                },
            ),
    {
        match secret {
            Secret::AccountSeed => match found {
                Some(bytes) => {
                    if bytes.len() != 32 {
                        return ChessDelegateResponse::Error {
                            message: with_number(
                                "stored account seed is ",
                                bytes.len() as u128,
                                " bytes, expected 32",
                            ),
                        };
                    }
                    let seed: [u8; 32] = array_from::<32>(bytes.as_slice(), 0);
                    assert(seed@ =~= bytes@);
                    assert(seed_of(bytes@)@ == seed@);
                    assert(seed_of(bytes@) =~= seed);
                    ChessDelegateResponse::Account { seed: Some(seed) }
                },
                None => ChessDelegateResponse::Account { seed: None },
            },
            Secret::Nickname => match found {
                Some(bytes) => ChessDelegateResponse::Nickname { nickname: text_from_utf8(bytes) },
                None => ChessDelegateResponse::Nickname { nickname: None },
            },
        }
    }

    /// The answer, given whether a write was taken.
    pub fn after_write(secret: Secret, taken: bool) -> (r: ChessDelegateResponse)
        ensures
            r@ == answer_to_write(secret, taken),
    {
        if taken {
            ChessDelegateResponse::Stored
        } else {
            match secret {
                Secret::AccountSeed => ChessDelegateResponse::Error {
                    message: "the secret store rejected the account seed".to_string(),
                },
                Secret::Nickname => ChessDelegateResponse::Error {
                    message: "the secret store rejected the nickname".to_string(),
                },
            }
        }
    }

    /// The answer where everything was removed.
    pub fn after_clear() -> (r: ChessDelegateResponse)
        ensures
            r@ == Answer::Stored,
    {
        ChessDelegateResponse::Stored
    }
}

/// A store of secrets that takes whatever is written, and the answer, once a
/// request has been served.
pub open spec fn served(store: Map<Secret, Seq<u8>>, request: ChessDelegateRequest) -> (
    Map<Secret, Seq<u8>>,
    Answer,
) {
    match step_for(request) {
        StepView::Read(s) => (
            store,
            answer_to_read(
                s,
                if store.contains_key(s) {
                    Some(store[s])
                } else {
                    None
                },
            ),
        ),
        StepView::Write(s, bytes) => (store.insert(s, bytes), answer_to_write(s, true)),
        StepView::Clear => (
            store.remove(Secret::AccountSeed).remove(Secret::Nickname),
            Answer::Stored,
        ),
    }
}

/// An account that was stored is the account that is handed out, a nickname
/// that was set is the one that is remembered, the one does not touch the
/// other, and nothing is left of either once the account is cleared.
pub proof fn law_what_is_stored_is_handed_out(
    store: Map<Secret, Seq<u8>>,
    seed: [u8; 32],
    nickname: String,
)
    ensures
        ({
            let kept = served(store, ChessDelegateRequest::StoreAccount { seed });
            let named = served(store, ChessDelegateRequest::SetNickname { nickname });
            let cleared = served(store, ChessDelegateRequest::ClearAccount);
            &&& kept.1 == Answer::Stored
            &&& served(kept.0, ChessDelegateRequest::GetAccount).1 == Answer::Account(Some(seed))
            &&& served(kept.0, ChessDelegateRequest::GetNickname).1 == served(
                store,
                ChessDelegateRequest::GetNickname,
            ).1
            &&& named.1 == Answer::Stored
            &&& served(named.0, ChessDelegateRequest::GetNickname).1 == Answer::Nickname(
                Some(nickname@),
            )
            &&& served(named.0, ChessDelegateRequest::GetAccount).1 == served(
                store,
                ChessDelegateRequest::GetAccount,
            ).1
            &&& served(cleared.0, ChessDelegateRequest::GetAccount).1 == Answer::Account(None)
            &&& served(cleared.0, ChessDelegateRequest::GetNickname).1 == Answer::Nickname(None)
        }),
{
    broadcast use vstd::utf8::encode_utf8_valid_utf8;
    broadcast use vstd::utf8::encode_utf8_decode_utf8;

    assert(seed_of(seed@)@ == seed@);
    assert(seed_of(seed@) =~= seed);
}

/// A secret is read back only in the form that it has: a seed of other than 32
/// bytes is an error, and a nickname that is no text is none.
pub proof fn law_what_was_spoiled_is_not_handed_out(found: Seq<u8>)
    ensures
        answer_to_read(Secret::AccountSeed, None) == Answer::Account(None),
        answer_to_read(Secret::Nickname, None) == Answer::Nickname(None),
        answer_to_read(Secret::AccountSeed, Some(found)) is Error <==> found.len() != 32,
        !valid_utf8(found) ==> answer_to_read(Secret::Nickname, Some(found)) == Answer::Nickname(
            None,
        ),
        valid_utf8(found) ==> answer_to_read(Secret::Nickname, Some(found)) == Answer::Nickname(
            Some(decode_utf8(found)),
        ),
{
}

/// A write is answered by whether the store took it.
pub proof fn law_refused_writes_are_errors(secret: Secret, taken: bool)
    ensures
        taken ==> answer_to_write(secret, taken) == Answer::Stored,
        !taken ==> answer_to_write(secret, taken) is Error,
        answer_to_write(Secret::AccountSeed, false) != answer_to_write(Secret::Nickname, false),
{
    reveal_strlit("the secret store rejected the account seed");
    reveal_strlit("the secret store rejected the nickname");
    let a = "the secret store rejected the account seed"@;
    let b = "the secret store rejected the nickname"@;
    assert(a[26] == 'a' || a.len() != b.len());
}

/// Each secret is kept under its own name, storing one leaves the other, and
/// clearing leaves neither.
pub proof fn law_secrets_are_kept_apart(
    store: Map<Secret, Seq<u8>>,
    seed: [u8; 32],
    nickname: String,
)
    ensures
        secret_key(Secret::AccountSeed) != secret_key(Secret::Nickname),
        ({
            let after = served(store, ChessDelegateRequest::StoreAccount { seed }).0;
            &&& after.contains_key(Secret::AccountSeed) && after[Secret::AccountSeed] == seed@
            &&& after.contains_key(Secret::Nickname) <==> store.contains_key(Secret::Nickname)
            &&& store.contains_key(Secret::Nickname) ==> after[Secret::Nickname]
                == store[Secret::Nickname]
        }),
        ({
            let after = served(store, ChessDelegateRequest::SetNickname { nickname }).0;
            &&& after.contains_key(Secret::Nickname) && after[Secret::Nickname] == encode_utf8(
                nickname@,
            )
            &&& after.contains_key(Secret::AccountSeed) <==> store.contains_key(Secret::AccountSeed)
            &&& store.contains_key(Secret::AccountSeed) ==> after[Secret::AccountSeed]
                == store[Secret::AccountSeed]
        }),
        ({
            let after = served(store, ChessDelegateRequest::ClearAccount).0;
            &&& !after.contains_key(Secret::AccountSeed)
            &&& !after.contains_key(Secret::Nickname)
        }),
        served(store, ChessDelegateRequest::GetAccount).0 == store,
        served(store, ChessDelegateRequest::GetNickname).0 == store,
{
    reveal_strlit("freechess:account-seed:v1");
    reveal_strlit("freechess:nickname:v1");
    assert(ACCOUNT_SEED_KEY@.len() != NICKNAME_KEY@.len());
}

} // verus!
