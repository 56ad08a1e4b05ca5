//! Certificates of finished games.

use freechess::certificate::{CertificateDraft, GameCertificate};
use freechess::chess::{Color, Move};
use freechess::crypto::SigningKey;
use freechess::game::moves::AuthorizedMove;
use freechess::game::opponent::{OpponentSlotV1, SignedAcceptance, SignedJoin};
use freechess::game::setup::{
    leading_zero_bits, GameSetup, GameSetupV1, TimeControl, MAX_NICKNAME_LEN, POW_DIFFICULTY_BITS,
};
use freechess::game::{ChessGameParametersV1, ChessGameStateV1};
use freechess::game::{GameResult, WinReason};
use freechess::identity::GameId;
use rand::rngs::OsRng;
use rand::RngCore;

const T0: i64 = 1_700_000_000_000;

fn key() -> SigningKey {
    let mut seed = [0u8; 32];
    OsRng.fill_bytes(&mut seed);
    SigningKey::from_bytes(&seed)
}

/// A game created by `creator` (playing White) at `created_at`, nobody joined.
fn open_game(
    creator: &SigningKey,
    created_at: i64,
    nickname: &str,
) -> (ChessGameStateV1, ChessGameParametersV1) {
    let setup = GameSetup::mine(
        &creator.verifying_key(),
        Color::White,
        TimeControl::default(),
        created_at,
        nickname.to_string(),
    );
    let game_id = setup.derive_game_id(&creator.verifying_key());
    let params = ChessGameParametersV1 {
        creator: creator.verifying_key(),
        game_id,
    };
    let state = ChessGameStateV1 {
        setup: GameSetupV1(Some(setup.sign(creator, &game_id))),
        ..Default::default()
    };
    (state, params)
}

/// The opponent seat filled the legitimate way: the challenger offers and the
/// creator countersigns. Nothing else fills it — see the game module.
fn seated_slot(
    creator: &SigningKey,
    joiner: &SigningKey,
    params: &ChessGameParametersV1,
    at: i64,
    nickname: &str,
) -> OpponentSlotV1 {
    let join = SignedJoin::new(joiner, &params.game_id, at, nickname.to_string());
    OpponentSlotV1 {
        offers: Default::default(),
        seated: Some(SignedAcceptance::new(creator, &params.game_id, join)),
        declined: None,
    }
}

/// A game with both players seated.
fn started_game(
    creator: &SigningKey,
    opponent: &SigningKey,
    created_at: i64,
) -> (ChessGameStateV1, ChessGameParametersV1) {
    let (mut state, params) = open_game(creator, created_at, "creator");
    state.opponent = seated_slot(creator, opponent, &params, created_at + 1000, "opponent");
    (state, params)
}

/// Play `line` (UCI) into a started game, alternating signers from White.
fn play_line(
    state: &mut ChessGameStateV1,
    params: &ChessGameParametersV1,
    white: &SigningKey,
    black: &SigningKey,
    line: &[&str],
    start_at: i64,
) {
    for (i, uci) in line.iter().enumerate() {
        let ply = i as u32;
        let signer = if ply % 2 == 0 { white } else { black };
        let mv = Move::from_uci(uci).expect("valid uci");
        let am = AuthorizedMove::new(
            signer,
            &params.game_id,
            ply,
            mv,
            start_at + (ply as i64 + 1) * 1000,
        );
        state.moves.moves.insert(ply, am);
    }
}

/// A finished, co-signed game: fool's mate, Black wins by checkmate.
fn certified_game(
    white: &SigningKey,
    black: &SigningKey,
    created_at: i64,
    white_rating: i32,
    black_rating: i32,
) -> (GameCertificate, GameId) {
    let (mut state, params) = started_game(white, black, created_at);
    play_line(
        &mut state,
        &params,
        white,
        black,
        &["f2f3", "e7e5", "g2g4", "d8h4"],
        created_at + 1000,
    );
    state
        .verify(&state, &params)
        .expect("fixture game must be valid");

    let draft = CertificateDraft::from_game(
        &state,
        params.game_id,
        created_at + 60_000,
        white_rating,
        black_rating,
    )
    .expect("game is finished");
    let ws = draft.sign(white);
    let bs = draft.sign(black);
    let cert = draft.assemble(ws, bs);
    cert.verify().expect("fixture certificate must be valid");
    (cert, params.game_id)
}

/// A certificate over `game_id` that both throwaway keys signed. Nothing
/// about it corresponds to a real game.
fn forged(game_id: GameId, mutate: impl FnOnce(&mut CertificateDraft)) -> GameCertificate {
    let white = key();
    let black = key();
    let mut draft = CertificateDraft {
        game_id,
        white: white.verifying_key(),
        black: black.verifying_key(),
        white_nickname: "w".to_string(),
        black_nickname: "b".to_string(),
        result: GameResult::WhiteWins(WinReason::Resignation),
        moves: Vec::new(),
        time_control: TimeControl::default(),
        started_at: T0,
        finished_at: T0 + 1_000,
        white_rating_before: 1200,
        black_rating_before: 1200,
    };
    mutate(&mut draft);
    let ws = draft.sign(&white);
    let bs = draft.sign(&black);
    draft.assemble(ws, bs)
}

#[test]
fn a_certificate_costs_proof_of_work() {
    let cert = forged(GameId([0xff; 32]), |_| {});
    let err = cert.verify().expect_err("must reject");
    assert!(err.contains("proof-of-work"), "got: {err}");

    let (real, game_id) = certified_game(&key(), &key(), T0, 1200, 1200);
    assert!(leading_zero_bits(&game_id.0) >= POW_DIFFICULTY_BITS);
    real.verify().expect("a real game's certificate verifies");
}

#[test]
fn unbounded_certificate_fields_are_rejected() {
    let (real, game_id) = certified_game(&key(), &key(), T0, 1200, 1200);
    let _ = real;

    let long_name = forged(game_id, |d| {
        d.white_nickname = "n".repeat(MAX_NICKNAME_LEN + 1);
    });
    assert!(
        long_name.verify().unwrap_err().contains("nickname"),
        "an over-long nickname must be rejected"
    );

    let absurd_rating = forged(game_id, |d| {
        d.white_rating_before = i32::MIN;
    });
    assert!(
        absurd_rating.verify().unwrap_err().contains("rating"),
        "a rating outside the Elo range must be rejected"
    );

    let far_future = forged(game_id, |d| {
        d.finished_at = i64::MAX;
    });
    assert!(
        far_future.verify().is_err(),
        "an absurd finish time must be rejected"
    );
}
