//! What a client asks of the records that it holds.

use freechess::chess::{Board, Color, Move, PieceKind, Square};
use freechess::crypto::SigningKey;
use freechess::game::moves::AuthorizedMove;
use freechess::game::opponent::{SignedAcceptance, SignedJoin};
use freechess::game::setup::{GameSetup, GameSetupV1, TimeControl};
use freechess::game::{ChessGameParametersV1, ChessGameStateV1, GameResult, WinReason};
use freechess::identity::{GameId, PlayerId};
use freechess::lobby::{LobbyEntry, LobbyStateV1, SignedSnapshot};
use freechess::presence::{PresenceStatus, PresenceV1, SignedPresence, AWAY_WINDOW_MS};

const T0: i64 = 1_700_000_000_000;

fn key(n: u8) -> SigningKey {
    SigningKey::from_bytes(&[n; 32])
}

fn id(n: u8) -> PlayerId {
    PlayerId::from(&key(n).verifying_key())
}

fn open_game(
    creator: &SigningKey,
    at: i64,
    challenged: Option<&SigningKey>,
) -> (ChessGameStateV1, ChessGameParametersV1) {
    let public = creator.verifying_key();
    let setup = GameSetup::mine_challenge(
        &public,
        Color::White,
        TimeControl { initial_secs: 300, increment_secs: 3 },
        at,
        "creator".to_string(),
        challenged.map(|k| k.verifying_key()),
    );
    let game_id = setup.derive_game_id(&public);
    let state = ChessGameStateV1 {
        setup: GameSetupV1(Some(setup.sign(creator, &game_id))),
        ..Default::default()
    };
    (state, ChessGameParametersV1 { creator: public, game_id })
}

fn entry(creator: &SigningKey, at: i64, challenged: Option<&SigningKey>) -> LobbyEntry {
    let (state, params) = open_game(creator, at, challenged);
    LobbyEntry::new(params.game_id, state.setup.0.clone().unwrap())
}

fn matched(creator: &SigningKey, opponent: &SigningKey, at: i64) -> LobbyEntry {
    let mut e = entry(creator, at, None);
    let join = SignedJoin::new(opponent, &e.game_id, at + 500, "challenger".to_string());
    e.opponent = Some(SignedAcceptance::new(creator, &e.game_id, join));
    e
}

#[test]
fn moves_are_listed_square_by_square() {
    let board = Board::starting_position();
    let e2 = Square::from_algebraic("e2").unwrap();
    let mut ucis: Vec<String> =
        board.legal_moves_from(e2).into_iter().map(|m| m.to_uci()).collect();
    ucis.sort();
    assert_eq!(ucis, vec!["e2e3", "e2e4"]);
    assert!(board.legal_moves_from(Square::from_algebraic("e1").unwrap()).is_empty());
}

#[test]
fn pieces_have_the_usual_values() {
    let values: Vec<u32> = [
        PieceKind::Pawn,
        PieceKind::Knight,
        PieceKind::Bishop,
        PieceKind::Rook,
        PieceKind::Queen,
        PieceKind::King,
    ]
    .into_iter()
    .map(|k| k.material_value())
    .collect();
    assert_eq!(values, vec![1, 3, 3, 5, 9, 0]);
}

#[test]
fn time_controls_fall_into_categories() {
    let category = |initial_secs: u32, increment_secs: u32| {
        TimeControl { initial_secs, increment_secs }.category()
    };
    assert_eq!(category(60, 2), "Bullet");
    assert_eq!(category(180, 0), "Blitz");
    assert_eq!(category(300, 3), "Blitz");
    assert_eq!(category(600, 0), "Rapid");
    assert_eq!(category(1800, 0), "Classical");
}

#[test]
fn the_running_clock_is_the_movers() {
    let (white, black) = (key(1), key(2));
    let (mut state, params) = open_game(&white, T0, None);
    let join = SignedJoin::new(&black, &params.game_id, T0 + 1000, "challenger".to_string());
    assert!(!state.opponent.has_offer_from(&black.verifying_key()));
    state.opponent.offers.insert(black.verifying_key().0, join.clone());
    assert!(state.opponent.has_offer_from(&black.verifying_key()));
    state.opponent.offers.clear();
    state.opponent.seated = Some(SignedAcceptance::new(&white, &params.game_id, join));
    let mv = Move::from_uci("e2e4").unwrap();
    let played_at = T0 + 5000;
    state
        .moves
        .moves
        .insert(0, AuthorizedMove::new(&white, &params.game_id, 0, mv, played_at));
    assert_eq!(state.pending_time_for(Color::Black, played_at + 2500), 2500);
    assert_eq!(state.pending_time_for(Color::White, played_at + 2500), 0);
    assert_eq!(state.time_remaining(Color::Black, played_at + 2500), 297_500);
    assert_eq!(state.setup.0.as_ref().unwrap().creator_key(), white.verifying_key());
}

#[test]
fn the_lobby_lists_its_games_by_how_they_stand() {
    let mut lobby = LobbyStateV1::default();
    let public = entry(&key(1), T0, None);
    let private = entry(&key(2), T0 + 1000, Some(&key(3)));
    let mut finished = matched(&key(4), &key(5), T0 + 2000);
    finished.snapshot = Some(SignedSnapshot::new(
        &key(4),
        &finished.game_id,
        "8/8/8/8/8/8/8/8 w - - 0 1".to_string(),
        9,
        GameResult::WhiteWins(WinReason::Resignation),
        0,
        0,
        T0 + 9000,
    ));
    let live = matched(&key(6), &key(7), T0 + 3000);
    let ids: Vec<GameId> = [&public, &private, &finished, &live].map(|e| e.game_id).to_vec();
    for e in [public, private, finished, live] {
        assert_eq!(e.verify(), Ok(()));
        lobby.games.games.insert(e.game_id, e);
    }
    let names = |es: Vec<&LobbyEntry>| es.into_iter().map(|e| e.game_id).collect::<Vec<_>>();
    assert_eq!(names(lobby.games.open_games()), vec![ids[1], ids[0]]);
    assert_eq!(names(lobby.games.public_open_games()), vec![ids[0]]);
    assert_eq!(names(lobby.games.challenges_for(id(3))), vec![ids[1]]);
    assert!(lobby.games.challenges_for(id(1)).is_empty());
    assert_eq!(names(lobby.games.finished_games()), vec![ids[2]]);
    assert_eq!(names(lobby.games.live_games()), vec![ids[3]]);
}

#[test]
fn a_game_shows_the_names_that_its_players_go_by_now() {
    let mut lobby = LobbyStateV1::default();
    let e = matched(&key(1), &key(2), T0);
    assert_eq!(
        lobby.game_names(&e),
        ("creator".to_string(), "challenger".to_string())
    );
    let p = SignedPresence::new(&key(2), "renamed".to_string(), PresenceStatus::Online, T0);
    lobby.presence.players.insert(id(2), p);
    assert_eq!(lobby.game_names(&e), ("creator".to_string(), "renamed".to_string()));
    assert_eq!(
        lobby.game_names(&entry(&key(1), T0, None)),
        ("creator".to_string(), "\u{2014}".to_string())
    );
}

#[test]
fn spectators_and_opponents_are_found_among_those_around() {
    let game = GameId([9u8; 32]);
    let mut presence = PresenceV1::default();
    for (n, watching, at) in
        [(1u8, Some(game), T0), (2, Some(game), T0 + 1000), (3, None, T0 + 500)]
    {
        let p = SignedPresence::watching_game(
            &key(n),
            "someone".to_string(),
            PresenceStatus::Online,
            watching,
            at,
        );
        presence.players.insert(id(n), p);
    }
    let ids = |ps: Vec<&SignedPresence>| ps.into_iter().map(|p| p.player_id()).collect::<Vec<_>>();
    assert_eq!(ids(presence.spectators_of(game, T0 + 1000)), vec![id(2), id(1)]);
    assert_eq!(ids(presence.challengeable(id(2), T0 + 1000)), vec![id(3), id(1)]);
    assert!(presence.spectators_of(game, T0 + 1000 + AWAY_WINDOW_MS * 2).is_empty());
}
