//! Handles of players and names of games.

use freechess::crypto::SigningKey;
use freechess::identity::{GameId, PlayerId};
use rand::rngs::OsRng;
use rand::RngCore;

fn key() -> SigningKey {
    let mut seed = [0u8; 32];
    OsRng.fill_bytes(&mut seed);
    SigningKey::from_bytes(&seed)
}

#[test]
fn player_id_is_stable_and_base58_roundtrips() {
    let key = key().verifying_key();
    let id = PlayerId::from(&key);
    assert_eq!(id, PlayerId::from(&key), "derivation must be deterministic");
    assert_eq!(PlayerId::from_base58(&id.to_base58()), Some(id));
}

#[test]
fn distinct_keys_give_distinct_ids() {
    let a = PlayerId::from(&key().verifying_key());
    let b = PlayerId::from(&key().verifying_key());
    assert_ne!(a, b);
}

#[test]
fn game_id_base58_roundtrips_and_rejects_wrong_length() {
    let id = GameId([7u8; 32]);
    assert_eq!(GameId::from_base58(&id.to_base58()), Some(id));
    assert_eq!(
        GameId::from_base58(&bs58::encode([1u8; 16]).into_string()),
        None
    );
    assert_eq!(GameId::from_base58("not base58 !!"), None);
}
