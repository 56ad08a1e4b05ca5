//! The delegate's key.

use freechess::crypto::SigningKey;
use freechess::delegate_api::{
    delegate_key_for, digest_base58, CURRENT_DELEGATE_CODE_HASH, LEGACY_DELEGATE_CODE_HASHES,
};
use freenet_stdlib::prelude::{Delegate, DelegateCode, Parameters};

#[test]
fn the_delegate_key_derivation_matches_the_stdlib() {
    let wasm = b"not really wasm, but hashed the same way".to_vec();
    let code = DelegateCode::from(wasm.clone());
    let delegate = Delegate::from((&code, &Parameters::from(vec![])));

    let code_hash: [u8; 32] = *blake3::hash(&wasm).as_bytes();
    assert_eq!(
        code_hash.as_slice(),
        delegate.key().code_hash().as_ref(),
        "code hash is BLAKE3 over the module bytes"
    );
    assert_eq!(
        delegate_key_for(&code_hash).as_slice(),
        delegate.key().bytes(),
        "with empty parameters the key is BLAKE3 over the code hash"
    );
}

#[test]
fn the_current_delegate_is_not_also_listed_as_legacy() {
    assert!(
        !LEGACY_DELEGATE_CODE_HASHES.contains(&CURRENT_DELEGATE_CODE_HASH),
        "the current delegate is also listed as retired"
    );
    let mut seen = LEGACY_DELEGATE_CODE_HASHES.to_vec();
    seen.sort_unstable();
    let before = seen.len();
    seen.dedup();
    assert_eq!(before, seen.len(), "duplicate entries in the legacy list");
}


#[test]
fn digests_and_keys_are_written_in_base58() {
    let mut digest = [0u8; 32];
    assert_eq!(digest_base58(&digest), "1".repeat(32));
    digest[31] = 58;
    assert_eq!(digest_base58(&digest), "1".repeat(31) + "21");
    let key = SigningKey::from_bytes(&[7; 32]).verifying_key();
    assert_eq!(key.to_base58(), bs58::encode(key.as_bytes()).into_string());
    assert_eq!(digest_base58(key.as_bytes()), key.to_base58());
}
