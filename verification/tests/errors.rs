//! What is refused, and in what words.

use freechess::account::{export, import, AccountError};
use freechess::chess::{Board, MoveError};
use freechess::crypto::{SigningKey, VerifyingKey};
use freechess::elo::{apply_result, expected_milli, k_factor, Score};
use freechess::game::clocks::ClockAttestation;
use freechess::game::setup::TimeControl;
use freechess::identity::{verify_sig, GameId, PlayerId};
use freechess::player::validate_nickname;
use freechess::presence::{PresenceStatus, SignedPresence};

const T0: i64 = 1_700_000_000_000;

fn fen_fault(fen: &str) -> String {
    match Board::from_fen(fen) {
        Ok(_) => panic!("{fen} reads"),
        Err(e) => e.message(),
    }
}

#[test]
fn every_fault_of_a_position_is_told() {
    assert_eq!(fen_fault("8/8 w -"), "invalid FEN: expected at least 4 fields, got 3");
    assert_eq!(fen_fault("8/8/8 w - -"), "invalid FEN: expected 8 ranks, got 3");
    assert_eq!(fen_fault("9/8/8/8/8/8/8/8 w - -"), "invalid FEN: bad empty-square run '9'");
    assert_eq!(fen_fault("0/8/8/8/8/8/8/8 w - -"), "invalid FEN: bad empty-square run '0'");
    assert_eq!(fen_fault("x7/8/8/8/8/8/8/8 w - -"), "invalid FEN: bad piece 'x'");
    assert_eq!(fen_fault("8p/8/8/8/8/8/8/8 w - -"), "invalid FEN: rank 8 overflows");
    assert_eq!(
        fen_fault("8/8/8/8/8/8/8/7 w - -"),
        "invalid FEN: rank 1 describes 7 files, expected 8"
    );
    assert_eq!(fen_fault("8/8/8/8/8/8/8/8 x - -"), "invalid FEN: bad side to move 'x'");
    assert_eq!(fen_fault("8/8/8/8/8/8/8/8 w Kx -"), "invalid FEN: bad castling flag 'x'");
    assert_eq!(fen_fault("8/8/8/8/8/8/8/8 w - e9"), "invalid FEN: bad en passant square 'e9'");
}

#[test]
fn counters_that_do_not_read_are_the_first_ones() {
    let board = Board::from_fen("8/8/8/8/8/8/8/8 w - - x y").unwrap();
    assert_eq!((board.halfmove_clock, board.fullmove_number), (0, 1));
    let board = Board::from_fen("8/8/8/8/8/8/8/8 w - -").unwrap();
    assert_eq!((board.halfmove_clock, board.fullmove_number), (0, 1));
    assert_eq!(board.to_fen(), "8/8/8/8/8/8/8/8 w - - 0 1");
}

#[test]
fn every_fault_of_a_move_has_its_words() {
    let texts: Vec<String> = [
        MoveError::EmptySquare,
        MoveError::WrongColor,
        MoveError::Illegal,
        MoveError::BadPromotion,
        MoveError::GameOver,
    ]
    .into_iter()
    .map(|e| e.message())
    .collect();
    assert_eq!(
        texts,
        vec![
            "no piece on the origin square",
            "that piece belongs to the opponent",
            "illegal move",
            "invalid promotion",
            "the game is already over",
        ]
    );
}

#[test]
fn every_fault_of_an_account_is_told() {
    assert_eq!(import("fchess1"), Err(AccountError::BadLength(0)));
    assert_eq!(import("fchess12"), Err(AccountError::BadLength(1)));
    assert_eq!(import("fchess10OIl"), Err(AccountError::NotBase58));
    assert_eq!(import("chess1"), Err(AccountError::BadPrefix));
    let text = export(&SigningKey::from_bytes(&[4u8; 32]));
    let mut payload = bs58::decode(&text["fchess1".len()..]).into_vec().unwrap();
    payload[35] ^= 1;
    let altered = format!("fchess1{}", bs58::encode(payload).into_string());
    assert_eq!(import(&altered), Err(AccountError::BadChecksum));
    assert_eq!(AccountError::BadLength(5).message(), "account key has the wrong length (5 bytes)");
    assert_eq!(AccountError::NotBase58.message(), "account key contains invalid characters");
}

#[test]
fn a_bad_signature_says_what_it_was_for() {
    let key = SigningKey::from_bytes(&[4u8; 32]);
    let signature = key.sign(b"message");
    assert_eq!(verify_sig(&key.verifying_key(), b"message", &signature, "test"), Ok(()));
    let fault = verify_sig(&key.verifying_key(), b"other", &signature, "test").unwrap_err();
    assert!(fault.starts_with("invalid signature on test: "), "{fault}");
    let nobody = VerifyingKey([2u8; 32]);
    assert!(verify_sig(&nobody, b"message", &signature, "test").is_err());
}

#[test]
fn ids_of_the_wrong_length_do_not_read() {
    assert_eq!(GameId::from_base58(""), None);
    assert_eq!(GameId::from_base58("0"), None);
    assert_eq!(PlayerId::from_base58("2"), None);
    let id = GameId([5u8; 32]);
    assert_eq!(id.to_base58(), bs58::encode([5u8; 32]).into_string());
    assert_eq!(GameId::from_base58(&id.to_base58()), Some(id));
}

#[test]
fn a_clock_is_attested_at_a_time_after_the_first() {
    let key = SigningKey::from_bytes(&[4u8; 32]);
    let game = GameId([5u8; 32]);
    assert_eq!(ClockAttestation::new(&key, &game, 1).verify_signature(&game), Ok(()));
    assert_eq!(
        ClockAttestation::new(&key, &game, 0).verify_signature(&game),
        Err("clock attestation has a non-positive timestamp".to_string())
    );
    assert!(ClockAttestation::new(&key, &game, 1).verify_signature(&GameId([6u8; 32])).is_err());
}

#[test]
fn nicknames_have_limits() {
    assert_eq!(validate_nickname("ab"), Ok(()));
    for bad in ["", "a", " ab", "ab ", "a\u{7}b"] {
        assert!(validate_nickname(bad).is_err(), "{bad:?}");
    }
    assert!(validate_nickname(&"x".repeat(33)).is_err());
    assert_eq!(validate_nickname(&"x".repeat(32)), Ok(()));
}

#[test]
fn presence_is_signed_for_its_player_and_its_game() {
    let key = SigningKey::from_bytes(&[4u8; 32]);
    let mut p = SignedPresence::watching_game(
        &key,
        "ann".to_string(),
        PresenceStatus::Online,
        Some(GameId([5u8; 32])),
        T0,
    );
    assert_eq!(p.verify(), Ok(()));
    p.watching = None;
    assert!(p.verify().is_err());
}

#[test]
fn expectations_and_ratings_have_exact_values() {
    assert_eq!(expected_milli(1500, 1500), 500);
    assert_eq!(expected_milli(1525, 1500), 536);
    assert_eq!(expected_milli(1500, 1525), 464);
    assert_eq!(k_factor(1500, 0), 40);
    assert_eq!(apply_result(1500, 100, 1500, Score::Win), 1510);
    assert_eq!(apply_result(1500, 0, 1500, Score::Loss), 1480);
    assert_eq!(apply_result(1500, 100, 1525, Score::Draw), 1501);
}

#[test]
fn time_controls_have_labels() {
    assert_eq!(TimeControl { initial_secs: 600, increment_secs: 0 }.label(), "10+0");
    assert_eq!(TimeControl { initial_secs: 90, increment_secs: 2 }.label(), "1+2");
}
