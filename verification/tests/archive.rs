//! The archive: where a game belongs, how many a shard holds, and replaying.

use freechess::archive::{
    ArchiveParametersV1, ArchiveStateV1, ArchivedGamesV1, ShardId, BUCKETS, GAMES_PER_SHARD,
};
use freechess::certificate::{CertificateDraft, GameCertificate};
use freechess::chess::{Color, Move};
use freechess::crypto::SigningKey;
use freechess::game::moves::AuthorizedMove;
use freechess::game::opponent::{OpponentSlotV1, SignedAcceptance, SignedJoin};
use freechess::game::setup::{GameSetup, GameSetupV1, TimeControl};
use freechess::game::{ChessGameParametersV1, ChessGameStateV1};
use freechess::identity::GameId;
use rand::rngs::OsRng;
use rand::RngCore;

const T0: i64 = 1_700_000_000_000;

fn key() -> SigningKey {
    let mut seed = [0u8; 32];
    OsRng.fill_bytes(&mut seed);
    SigningKey::from_bytes(&seed)
}

/// A game created by `creator` (playing White) at `created_at`, nobody joined.
fn open_game(
    creator: &SigningKey,
    created_at: i64,
    nickname: &str,
) -> (ChessGameStateV1, ChessGameParametersV1) {
    let setup = GameSetup::mine(
        &creator.verifying_key(),
        Color::White,
        TimeControl::default(),
        created_at,
        nickname.to_string(),
    );
    let game_id = setup.derive_game_id(&creator.verifying_key());
    let params = ChessGameParametersV1 {
        creator: creator.verifying_key(),
        game_id,
    };
    let state = ChessGameStateV1 {
        setup: GameSetupV1(Some(setup.sign(creator, &game_id))),
        ..Default::default()
    };
    (state, params)
}

/// The opponent seat filled the legitimate way: the challenger offers and the
/// creator countersigns. Nothing else fills it — see the game module.
fn seated_slot(
    creator: &SigningKey,
    joiner: &SigningKey,
    params: &ChessGameParametersV1,
    at: i64,
    nickname: &str,
) -> OpponentSlotV1 {
    let join = SignedJoin::new(joiner, &params.game_id, at, nickname.to_string());
    OpponentSlotV1 {
        offers: Default::default(),
        seated: Some(SignedAcceptance::new(creator, &params.game_id, join)),
        declined: None,
    }
}

/// A game with both players seated.
fn started_game(
    creator: &SigningKey,
    opponent: &SigningKey,
    created_at: i64,
) -> (ChessGameStateV1, ChessGameParametersV1) {
    let (mut state, params) = open_game(creator, created_at, "creator");
    state.opponent = seated_slot(creator, opponent, &params, created_at + 1000, "opponent");
    (state, params)
}

/// Play `line` (UCI) into a started game, alternating signers from White.
fn play_line(
    state: &mut ChessGameStateV1,
    params: &ChessGameParametersV1,
    white: &SigningKey,
    black: &SigningKey,
    line: &[&str],
    start_at: i64,
) {
    for (i, uci) in line.iter().enumerate() {
        let ply = i as u32;
        let signer = if ply % 2 == 0 { white } else { black };
        let mv = Move::from_uci(uci).expect("valid uci");
        let am = AuthorizedMove::new(
            signer,
            &params.game_id,
            ply,
            mv,
            start_at + (ply as i64 + 1) * 1000,
        );
        state.moves.moves.insert(ply, am);
    }
}

/// A finished, co-signed game: fool's mate, Black wins by checkmate.
fn certified_game(
    white: &SigningKey,
    black: &SigningKey,
    created_at: i64,
    white_rating: i32,
    black_rating: i32,
) -> (GameCertificate, GameId) {
    let (mut state, params) = started_game(white, black, created_at);
    play_line(
        &mut state,
        &params,
        white,
        black,
        &["f2f3", "e7e5", "g2g4", "d8h4"],
        created_at + 1000,
    );
    state
        .verify(&state, &params)
        .expect("fixture game must be valid");

    let draft = CertificateDraft::from_game(
        &state,
        params.game_id,
        created_at + 60_000,
        white_rating,
        black_rating,
    )
    .expect("game is finished");
    let ws = draft.sign(white);
    let bs = draft.sign(black);
    let cert = draft.assemble(ws, bs);
    cert.verify().expect("fixture certificate must be valid");
    (cert, params.game_id)
}

fn shard_params(shard: ShardId) -> ArchiveParametersV1 {
    ArchiveParametersV1::new(shard)
}

#[test]
fn a_games_shard_is_derived_from_the_game_itself() {
    let a = key();
    let b = key();
    let (cert, _) = certified_game(&a, &b, T0, 1200, 1200);

    let shard = ShardId::for_game(cert.finished_at, &cert.game_id);
    assert_eq!(shard, ShardId::for_game(cert.finished_at, &cert.game_id));
    assert!(shard.bucket < BUCKETS);
    assert_eq!(shard.day, ShardId::day_of(cert.finished_at));
}

#[test]
fn a_day_is_covered_by_exactly_the_bucket_set() {
    let buckets = ShardId::buckets_for_day(20_000);
    assert_eq!(buckets.len(), BUCKETS as usize);
    for (i, shard) in buckets.iter().enumerate() {
        assert_eq!(shard.bucket, i as u8);
        assert_eq!(shard.day, 20_000);
    }
}

#[test]
fn an_archived_game_verifies_and_replays() {
    let white = key();
    let black = key();
    let (cert, game_id) = certified_game(&white, &black, T0, 1200, 1200);
    let shard = ShardId::for_game(cert.finished_at, &game_id);

    let mut state = ArchiveStateV1::default();
    state.games.games.insert(game_id, cert.clone());
    state
        .verify(&state, &shard_params(shard))
        .expect("archived game must verify");

    let replayed = state.games.get(&game_id).unwrap().replay();
    assert_eq!(replayed.san_list(), vec!["f3", "e5", "g4", "Qh4#"]);
    assert!(cert.to_pgn().contains("1. f3 e5 2. g4 Qh4#"));
}

#[test]
fn a_game_filed_in_the_wrong_shard_is_rejected() {
    let a = key();
    let b = key();
    let (cert, game_id) = certified_game(&a, &b, T0, 1200, 1200);
    let correct = ShardId::for_game(cert.finished_at, &game_id);
    let wrong = ShardId {
        day: correct.day + 1,
        bucket: correct.bucket,
    };

    let mut state = ArchiveStateV1::default();
    state.games.games.insert(game_id, cert);
    let err = state
        .verify(&state, &shard_params(wrong))
        .expect_err("must reject");
    assert!(err.contains("belongs in shard"), "unexpected error: {err}");
}

#[test]
fn a_tampered_certificate_is_rejected() {
    let a = key();
    let b = key();
    let (mut cert, game_id) = certified_game(&a, &b, T0, 1200, 1200);
    let shard = ShardId::for_game(cert.finished_at, &game_id);

    cert.result = freechess::game::GameResult::WhiteWins(freechess::game::WinReason::Checkmate);
    let mut state = ArchiveStateV1::default();
    state.games.games.insert(game_id, cert);
    assert!(state.verify(&state, &shard_params(shard)).is_err());
}

#[test]
fn the_shard_cap_keeps_the_newest_games_deterministically() {
    let a = key();
    let b = key();
    let (base, _) = certified_game(&a, &b, T0, 1200, 1200);

    let mut games = ArchivedGamesV1::default();
    for i in 0..(GAMES_PER_SHARD + 50) {
        let mut cert = base.clone();
        let mut id = [0u8; 32];
        id[..8].copy_from_slice(&(i as u64).to_le_bytes());
        cert.game_id = freechess::identity::GameId(id);
        cert.finished_at = T0 + i as i64 * 1000;
        games.games.insert(cert.game_id, cert);
    }
    assert_eq!(games.len(), GAMES_PER_SHARD + 50);

    let mut forward = games.clone();
    forward.enforce_cap();
    assert_eq!(forward.len(), GAMES_PER_SHARD);

    let oldest_kept = forward.games.values().into_iter().map(|c| c.finished_at).min().unwrap();
    assert_eq!(oldest_kept, T0 + 50 * 1000);

    let twice = {
        let mut g = forward.clone();
        g.enforce_cap();
        g
    };
    assert_eq!(forward, twice, "cap must be idempotent");
}

#[test]
fn archives_converge_regardless_of_delta_order() {
    let a = key();
    let b = key();
    let c = key();
    let (cert1, _) = certified_game(&a, &b, T0, 1200, 1200);
    let (cert2, _) = certified_game(&a, &c, T0 + 3_600_000, 1200, 1200);

    let empty = ArchiveStateV1::default();
    let shard = ShardId::for_game(cert1.finished_at, &cert1.game_id);
    let params = shard_params(shard);

    let mine: Vec<_> = [cert1, cert2]
        .into_iter()
        .filter(|c| ShardId::for_game(c.finished_at, &c.game_id) == shard)
        .collect();

    let mut peer1 = ArchiveStateV1::default();
    peer1
        .games
        .apply_delta(&empty, &params, &Some(mine.clone()))
        .unwrap();
    let mut reversed = mine;
    reversed.reverse();
    let mut peer2 = ArchiveStateV1::default();
    peer2
        .games
        .apply_delta(&empty, &params, &Some(reversed.clone()))
        .unwrap();

    assert_eq!(peer1, peer2, "archive must converge");

    let before = peer1.clone();
    peer1
        .games
        .apply_delta(&empty, &params, &Some(reversed))
        .unwrap();
    assert_eq!(before, peer1, "archive merge must be idempotent");
}

#[test]
fn a_certificate_from_another_shard_is_refused_on_apply() {
    let a = key();
    let b = key();
    let (cert, game_id) = certified_game(&a, &b, T0, 1200, 1200);
    let correct = ShardId::for_game(cert.finished_at, &game_id);
    let wrong = ShardId {
        day: correct.day,
        bucket: (correct.bucket + 1) % BUCKETS,
    };

    let empty = ArchiveStateV1::default();
    let mut state = ArchiveStateV1::default();
    let err = state
        .games
        .apply_delta(&empty, &shard_params(wrong), &Some(vec![cert]))
        .expect_err("must refuse");
    assert!(err.contains("does not belong"), "unexpected error: {err}");
}

#[test]
fn searching_finds_games_by_nickname_and_player() {
    let white = key();
    let black = key();
    let (cert, game_id) = certified_game(&white, &black, T0, 1200, 1200);
    let mut games = ArchivedGamesV1::default();
    games.games.insert(game_id, cert.clone());

    assert_eq!(games.search("creator").len(), 1);
    assert_eq!(games.search("opponent").len(), 1);
    assert_eq!(games.search("nobody").len(), 0);
    assert_eq!(games.games_of(cert.white_id()).len(), 1);
    assert_eq!(games.games_of(cert.black_id()).len(), 1);
    let stranger = freechess::identity::PlayerId::from(&key().verifying_key());
    assert_eq!(games.games_of(stranger).len(), 0);
}
