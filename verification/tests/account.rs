//! Taking an account elsewhere.

use freechess::account::{export, import, preview_id, AccountError, EXPORT_PREFIX};
use freechess::crypto::SigningKey;
use freechess::identity::PlayerId;
use rand::rngs::OsRng;
use rand::RngCore;

fn key() -> SigningKey {
    let mut seed = [0u8; 32];
    OsRng.fill_bytes(&mut seed);
    SigningKey::from_bytes(&seed)
}

#[test]
fn export_import_roundtrips_to_the_same_account() {
    let original = key();
    let text = export(&original);
    let restored = import(&text).expect("must import");
    assert_eq!(original.to_bytes(), restored.to_bytes());
    assert_eq!(
        PlayerId::from(&original.verifying_key()),
        PlayerId::from(&restored.verifying_key()),
        "the imported account must be the same player"
    );
}

#[test]
fn exported_keys_carry_the_version_prefix() {
    assert!(export(&key()).starts_with(EXPORT_PREFIX));
}

#[test]
fn surrounding_whitespace_is_tolerated() {
    let original = key();
    let text = format!("  \n{}\t ", export(&original));
    assert_eq!(import(&text).unwrap().to_bytes(), original.to_bytes());
}

#[test]
fn a_mistyped_character_is_caught_by_the_checksum() {
    let text = export(&key());
    let mut chars: Vec<char> = text.chars().collect();
    let last = chars.len() - 1;
    chars[last] = if chars[last] == 'A' { 'B' } else { 'A' };
    let typo: String = chars.into_iter().collect();

    match import(&typo) {
        Err(AccountError::BadChecksum) | Err(AccountError::BadLength(_)) => {}
        other => panic!("expected the typo to be rejected, got {other:?}"),
    }
}

#[test]
fn a_string_without_the_prefix_is_rejected() {
    let text = export(&key());
    let without = text.strip_prefix(EXPORT_PREFIX).unwrap();
    assert_eq!(import(without), Err(AccountError::BadPrefix));
}

#[test]
fn garbage_is_rejected_rather_than_producing_an_account() {
    for bad in ["", "fchess1", "fchess1!!!!", "totally not a key"] {
        assert!(import(bad).is_err(), "should reject {bad:?}");
    }
}

#[test]
fn preview_matches_the_imported_account() {
    let original = key();
    let text = export(&original);
    assert_eq!(
        preview_id(&text).unwrap(),
        PlayerId::from(&original.verifying_key())
    );
}

#[test]
fn two_accounts_export_to_different_strings() {
    assert_ne!(export(&key()), export(&key()));
}
