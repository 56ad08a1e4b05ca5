//! What is read from bytes and texts that may be anything.

use freechess::chess::Square;
use freechess::crypto::{Signature, SigningKey, VerifyingKey};

#[test]
fn a_square_off_the_board_does_not_read() {
    assert_eq!(Square::from_index(63), Ok(Square(63)));
    assert_eq!(
        Square::from_index(64),
        Err("square 64 is off the board (must be 0..64)".to_string())
    );
    assert_eq!(
        Square::from_index(255),
        Err("square 255 is off the board (must be 0..64)".to_string())
    );
}

#[test]
fn a_public_key_reads_back() {
    let key = SigningKey::from_bytes(&[9u8; 32]).verifying_key();
    assert_eq!(VerifyingKey::read(key.as_bytes(), "key"), Ok(key));
}

#[test]
fn bytes_that_are_no_public_key_do_not_read() {
    assert_eq!(
        VerifyingKey::read(&[0u8; 31], "verifying key"),
        Err("verifying key must be 32 bytes".to_string())
    );
    assert_eq!(VerifyingKey::read(&[0u8; 33], "key"), Err("key must be 32 bytes".to_string()));
    let mut no_point = [0u8; 32];
    no_point[0] = 2;
    assert!(VerifyingKey::read(&no_point, "key").is_err());
}

#[test]
fn a_signature_reads_back() {
    let signature = SigningKey::from_bytes(&[9u8; 32]).sign(b"message");
    assert_eq!(Signature::read(&signature.to_bytes()), Ok(signature));
    assert_eq!(Signature::read(&[0u8; 63]), Err("signature must be 64 bytes".to_string()));
}
