//! The delegate: what each request does to its secrets, and what it answers.

use freechess::delegate::{ChessDelegate, DelegateStep, Secret};
use freechess::delegate_api::{
    delegate_key_for, delegate_key_of, hex, ChessDelegateRequest, ChessDelegateResponse,
};
use std::collections::HashMap;

/// A store of secrets that may refuse what is written.
struct Store {
    held: HashMap<&'static str, Vec<u8>>,
    full: bool,
}

impl Store {
    fn new() -> Store {
        Store { held: HashMap::new(), full: false }
    }

    fn serve(&mut self, request: ChessDelegateRequest) -> ChessDelegateResponse {
        match ChessDelegate::step(request) {
            DelegateStep::Read(secret) => {
                ChessDelegate::after_read(secret, self.held.get(secret.key()).cloned())
            }
            DelegateStep::Write(secret, bytes) => {
                if !self.full {
                    self.held.insert(secret.key(), bytes);
                }
                ChessDelegate::after_write(secret, !self.full)
            }
            DelegateStep::Clear => {
                self.held.clear();
                ChessDelegate::after_clear()
            }
        }
    }
}

#[test]
fn secrets_are_filed_under_their_own_keys() {
    assert_eq!(Secret::AccountSeed.key(), "freechess:account-seed:v1");
    assert_eq!(Secret::Nickname.key(), "freechess:nickname:v1");
}

#[test]
fn an_account_that_was_stored_is_handed_out() {
    let mut store = Store::new();
    assert_eq!(
        store.serve(ChessDelegateRequest::GetAccount),
        ChessDelegateResponse::Account { seed: None }
    );
    assert_eq!(
        store.serve(ChessDelegateRequest::StoreAccount { seed: [7u8; 32] }),
        ChessDelegateResponse::Stored
    );
    assert_eq!(
        store.serve(ChessDelegateRequest::GetAccount),
        ChessDelegateResponse::Account { seed: Some([7u8; 32]) }
    );
}

#[test]
fn a_nickname_is_remembered_apart_from_the_account() {
    let mut store = Store::new();
    store.serve(ChessDelegateRequest::StoreAccount { seed: [7u8; 32] });
    assert_eq!(
        store.serve(ChessDelegateRequest::SetNickname { nickname: "J\u{f6}rg".to_string() }),
        ChessDelegateResponse::Stored
    );
    assert_eq!(
        store.serve(ChessDelegateRequest::GetNickname),
        ChessDelegateResponse::Nickname { nickname: Some("J\u{f6}rg".to_string()) }
    );
    assert_eq!(
        store.serve(ChessDelegateRequest::GetAccount),
        ChessDelegateResponse::Account { seed: Some([7u8; 32]) }
    );
    assert_eq!(store.held["freechess:nickname:v1"], vec![0x4a, 0xc3, 0xb6, 0x72, 0x67]);
}

#[test]
fn nothing_is_left_once_the_account_is_cleared() {
    let mut store = Store::new();
    store.serve(ChessDelegateRequest::StoreAccount { seed: [7u8; 32] });
    store.serve(ChessDelegateRequest::SetNickname { nickname: "ann".to_string() });
    assert_eq!(store.serve(ChessDelegateRequest::ClearAccount), ChessDelegateResponse::Stored);
    assert_eq!(
        store.serve(ChessDelegateRequest::GetAccount),
        ChessDelegateResponse::Account { seed: None }
    );
    assert_eq!(
        store.serve(ChessDelegateRequest::GetNickname),
        ChessDelegateResponse::Nickname { nickname: None }
    );
}

#[test]
fn a_seed_of_the_wrong_length_is_reported() {
    assert_eq!(
        ChessDelegate::after_read(Secret::AccountSeed, Some(vec![1u8; 31])),
        ChessDelegateResponse::Error {
            message: "stored account seed is 31 bytes, expected 32".to_string()
        }
    );
}

#[test]
fn a_nickname_that_is_no_text_is_none() {
    assert_eq!(
        ChessDelegate::after_read(Secret::Nickname, Some(vec![0xff, 0xfe])),
        ChessDelegateResponse::Nickname { nickname: None }
    );
}

#[test]
fn a_store_that_refuses_is_reported() {
    let mut store = Store::new();
    store.full = true;
    assert_eq!(
        store.serve(ChessDelegateRequest::StoreAccount { seed: [7u8; 32] }),
        ChessDelegateResponse::Error {
            message: "the secret store rejected the account seed".to_string()
        }
    );
    assert_eq!(
        store.serve(ChessDelegateRequest::SetNickname { nickname: "ann".to_string() }),
        ChessDelegateResponse::Error {
            message: "the secret store rejected the nickname".to_string()
        }
    );
}

#[test]
fn a_delegate_is_keyed_by_the_hash_of_its_code_hash() {
    let (code_hash, key) = delegate_key_of(b"some code");
    assert_eq!(code_hash, *blake3::hash(b"some code").as_bytes());
    assert_eq!(key, *blake3::hash(&code_hash).as_bytes());
    assert_eq!(delegate_key_for(&code_hash), key);
}

#[test]
fn a_hash_is_written_in_hexadecimal() {
    let mut bytes = [0u8; 32];
    bytes[0] = 0x0f;
    bytes[1] = 0xa0;
    bytes[31] = 0xff;
    let text = hex(&bytes);
    assert_eq!(text.len(), 64);
    assert!(text.starts_with("0fa0"));
    assert!(text.ends_with("00ff"));
}
