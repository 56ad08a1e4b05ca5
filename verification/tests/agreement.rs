//! Copies that merge one another come to hold the same, and stay valid.

use freechess::admin::{AdminAction, AdminGrant, Announcement, ServiceState, Takedown};
use freechess::archive::{ArchiveParametersV1, ArchiveStateV1, ShardId};
use freechess::certificate::{CertificateDraft, GameCertificate};
use freechess::chess::{Color, Move};
use freechess::crypto::SigningKey;
use freechess::elo::apply_result;
use freechess::game::certification::SignedCertificateProposal;
use freechess::game::clocks::ClockAttestation;
use freechess::game::conclusion::SignedConclusion;
use freechess::game::moves::AuthorizedMove;
use freechess::game::opponent::{OpponentDelta, SignedAcceptance, SignedDecline, SignedJoin};
use freechess::game::replica::ChessGameStateV1Delta;
use freechess::game::setup::{GameSetup, GameSetupV1, TimeControl};
use freechess::game::{ChessGameParametersV1, ChessGameStateV1, GameResult, WinReason};
use freechess::identity::PlayerId;
use freechess::leaderboard::RankEntry;
use freechess::lobby::{
    LobbyEntry, LobbyParametersV1, LobbyStateV1, LobbyStateV1Delta, SignedSnapshot,
};
use freechess::player::{
    PlayerParametersV1, PlayerStateV1, PlayerStateV1Delta, SignedProfile,
};
use freechess::presence::{PresenceStatus, SignedPresence};

const T0: i64 = 1_700_000_000_000;

fn key(n: u8) -> SigningKey {
    SigningKey::from_bytes(&[n; 32])
}

fn open_game(creator: &SigningKey, at: i64, name: &str) -> (ChessGameStateV1, ChessGameParametersV1) {
    let public = creator.verifying_key();
    let setup =
        GameSetup::mine(&public, Color::White, TimeControl::default(), at, name.to_string());
    let game_id = setup.derive_game_id(&public);
    let params = ChessGameParametersV1 { creator: public, game_id };
    let state = ChessGameStateV1 {
        setup: GameSetupV1(Some(setup.sign(creator, &game_id))),
        ..Default::default()
    };
    (state, params)
}

fn offer(player: &SigningKey, params: &ChessGameParametersV1, at: i64) -> SignedJoin {
    SignedJoin::new(player, &params.game_id, at, "challenger".to_string())
}

fn started_game(
    creator: &SigningKey,
    opponent: &SigningKey,
    at: i64,
) -> (ChessGameStateV1, ChessGameParametersV1) {
    let (mut state, params) = open_game(creator, at, "creator");
    let join = offer(opponent, &params, at + 1000);
    state.opponent.seated = Some(SignedAcceptance::new(creator, &params.game_id, join));
    (state, params)
}

fn with(
    game: &ChessGameStateV1,
    params: &ChessGameParametersV1,
    delta: ChessGameStateV1Delta,
) -> ChessGameStateV1 {
    let mut next = game.clone();
    next.apply_delta(game, params, &Some(delta)).expect("the update comes in");
    next.verify(&next, params).expect("the record stays valid");
    next
}

fn with_move(
    game: &ChessGameStateV1,
    params: &ChessGameParametersV1,
    signer: &SigningKey,
    ply: u32,
    uci: &str,
) -> ChessGameStateV1 {
    let mv = Move::from_uci(uci).unwrap();
    let at = T0 + 2000 + ply as i64 * 1000;
    let moves = vec![AuthorizedMove::new(signer, &params.game_id, ply, mv, at)];
    with(game, params, ChessGameStateV1Delta { moves: Some(moves), ..Default::default() })
}

fn merged(
    a: &ChessGameStateV1,
    b: &ChessGameStateV1,
    params: &ChessGameParametersV1,
) -> ChessGameStateV1 {
    let mut next = a.clone();
    next.merge(a, params, b).expect("the copies merge");
    next.verify(&next, params).expect("the merged record is valid");
    next
}

#[test]
fn three_copies_of_a_game_merge_alike_in_any_order() {
    let (white, black) = (key(1), key(2));
    let (start, params) = started_game(&white, &black, T0);
    let one = with_move(&start, &params, &white, 0, "e2e4");
    let a = with_move(&one, &params, &black, 1, "e7e5");
    let b = with(
        &one,
        &params,
        ChessGameStateV1Delta {
            clocks: Some(vec![ClockAttestation::new(&black, &params.game_id, T0 + 9000)]),
            ..Default::default()
        },
    );
    let c = with(
        &start,
        &params,
        ChessGameStateV1Delta {
            conclusion: Some(vec![SignedConclusion::resign(&white, &params.game_id, 0, T0 + 8000)]),
            ..Default::default()
        },
    );
    let left = merged(&merged(&a, &b, &params), &c, &params);
    let right = merged(&a, &merged(&b, &c, &params), &params);
    assert_eq!(left, right);
    assert_eq!(merged(&c, &merged(&b, &a, &params), &params), left);
    assert_eq!(merged(&left, &b, &params), left);
    assert_eq!(left.moves.len(), 2);
    assert_eq!(left.result(), GameResult::BlackWins(WinReason::Resignation));
}

#[test]
fn two_copies_agree_though_a_player_signed_two_moves() {
    let (white, black) = (key(1), key(2));
    let (start, params) = started_game(&white, &black, T0);
    let a = with_move(&start, &params, &white, 0, "e2e4");
    let b = with_move(&start, &params, &white, 0, "d2d4");
    assert_ne!(a, b);
    assert_eq!(merged(&a, &b, &params), merged(&b, &a, &params));
}

#[test]
fn waiting_copies_agree_on_the_offers() {
    let creator = key(1);
    let (start, params) = open_game(&creator, T0, "creator");
    let offered = |n: u8| {
        let join = offer(&key(n), &params, T0 + n as i64);
        with(
            &start,
            &params,
            ChessGameStateV1Delta {
                opponent: Some(OpponentDelta::offer(join)),
                ..Default::default()
            },
        )
    };
    let (a, b) = (offered(5), offered(6));
    let both = merged(&a, &b, &params);
    assert_eq!(both, merged(&b, &a, &params));
    assert_eq!(both.opponent.pending_offers().len(), 2);
    assert!(both.opponent.get().is_none());
}

#[test]
fn copies_agree_that_a_challenge_was_declined() {
    let (creator, invited) = (key(1), key(2));
    let setup = GameSetup::mine_challenge(
        &creator.verifying_key(),
        Color::White,
        TimeControl::default(),
        T0,
        "creator".to_string(),
        Some(invited.verifying_key()),
    );
    let game_id = setup.derive_game_id(&creator.verifying_key());
    let params = ChessGameParametersV1 { creator: creator.verifying_key(), game_id };
    let start = ChessGameStateV1 {
        setup: GameSetupV1(Some(setup.sign(&creator, &game_id))),
        ..Default::default()
    };
    let declined = with(
        &start,
        &params,
        ChessGameStateV1Delta {
            opponent: Some(OpponentDelta::decline(SignedDecline::new(
                &invited, &game_id, T0 + 5,
            ))),
            ..Default::default()
        },
    );
    let offered = with(
        &start,
        &params,
        ChessGameStateV1Delta {
            opponent: Some(OpponentDelta::offer(offer(&invited, &params, T0 + 4))),
            ..Default::default()
        },
    );
    let both = merged(&declined, &offered, &params);
    assert_eq!(both, merged(&offered, &declined, &params));
    assert!(both.opponent.is_declined());
}

#[test]
fn who_was_seated_reaches_a_copy_that_waits() {
    let (creator, opponent) = (key(1), key(2));
    let (open, params) = open_game(&creator, T0, "creator");
    let waiting = with(
        &open,
        &params,
        ChessGameStateV1Delta {
            opponent: Some(OpponentDelta::offer(offer(&key(7), &params, T0 + 3))),
            ..Default::default()
        },
    );
    let join = offer(&opponent, &params, T0 + 1000);
    let seated = with(
        &open,
        &params,
        ChessGameStateV1Delta {
            opponent: Some(OpponentDelta::seat(SignedAcceptance::new(
                &creator,
                &params.game_id,
                join,
            ))),
            ..Default::default()
        },
    );
    let played = with_move(&seated, &params, &creator, 0, "e2e4");
    assert_eq!(merged(&played, &waiting, &params), played);
    assert_eq!(merged(&waiting, &played, &params), played);
}

#[test]
fn a_signature_for_one_purpose_serves_no_other() {
    let (creator, invited) = (key(1), key(2));
    let (_, params) = open_game(&creator, T0, "creator");
    let clock = ClockAttestation::new(&invited, &params.game_id, T0 + 5);
    let claim = SignedConclusion::resign(&invited, &params.game_id, 0, T0 + 5);
    let mut decline = SignedDecline::new(&invited, &params.game_id, T0 + 5);
    let challenged = Some(invited.verifying_key());
    assert!(decline.verify(&params, challenged).is_ok());
    decline.signature = clock.signature;
    assert!(decline.verify(&params, challenged).is_err());
    decline.signature = claim.signature;
    assert!(decline.verify(&params, challenged).is_err());
}

fn certified(white: &SigningKey, black: &SigningKey, at: i64) -> GameCertificate {
    let (mut state, params) = started_game(white, black, at);
    for (i, uci) in ["f2f3", "e7e5", "g2g4", "d8h4"].iter().enumerate() {
        let signer = if i % 2 == 0 { white } else { black };
        let mv = Move::from_uci(uci).unwrap();
        let played_at = at + 2000 + i as i64 * 1000;
        let am = AuthorizedMove::new(signer, &params.game_id, i as u32, mv, played_at);
        state.moves.moves.insert(i as u32, am);
    }
    let draft =
        CertificateDraft::from_game(&state, params.game_id, at + 60_000, 1200, 1200).unwrap();
    let (ws, bs) = (draft.sign(white), draft.sign(black));
    draft.assemble(ws, bs)
}

#[test]
fn copies_of_a_shard_agree() {
    let certs: Vec<GameCertificate> =
        (0..2).map(|i| certified(&key(1), &key(2), T0 + i * 1000)).collect();
    let shard = ShardId::for_game(certs[0].finished_at, &certs[0].game_id);
    let params = ArchiveParametersV1::new(shard);
    let mut a = ArchiveStateV1::default();
    let parent = a.clone();
    a.games.games.insert(certs[0].game_id, certs[0].clone());
    let mut b = ArchiveStateV1::default();
    let second = ShardId::for_game(certs[1].finished_at, &certs[1].game_id);
    if second == shard {
        b.games.games.insert(certs[1].game_id, certs[1].clone());
    }
    let mut ab = a.clone();
    ab.merge(&parent, &params, &b).unwrap();
    let mut ba = b.clone();
    ba.merge(&parent, &params, &a).unwrap();
    assert_eq!(ab, ba);
    ab.verify(&ab, &params).unwrap();
    let once = ab.clone();
    ab.merge(&parent, &params, &b).unwrap();
    assert_eq!(ab, once);
}

#[test]
fn copies_of_a_page_agree() {
    let me = key(1);
    let params = PlayerParametersV1 { player: me.verifying_key() };
    let empty = PlayerStateV1::default();
    let page = |name: &str, at: i64| {
        let mut p = empty.clone();
        let delta = PlayerStateV1Delta {
            profile: Some(SignedProfile::new(&me, name.to_string(), at)),
            history: Some(vec![certified(&me, &key(2), at)]),
        };
        p.apply_delta(&empty, &params, &Some(delta)).unwrap();
        p.verify(&p, &params).unwrap();
        p
    };
    let (a, b) = (page("early", T0), page("late", T0 + 5000));
    let mut ab = a.clone();
    ab.merge(&empty, &params, &b).unwrap();
    let mut ba = b.clone();
    ba.merge(&empty, &params, &a).unwrap();
    assert_eq!(ab, ba);
    assert_eq!(ab.history.len(), 2);
    assert_eq!(ab.nickname(params.player_id()), "late");
    ab.verify(&ab, &params).unwrap();
}

fn rank(player: &SigningKey, loser: &SigningKey, at: i64) -> RankEntry {
    let cert = certified(loser, player, at);
    let me = PlayerId::from(&player.verifying_key());
    let rating = apply_result(
        1200,
        0,
        cert.opponent_rating_for(me).unwrap(),
        cert.score_for(me).unwrap(),
    );
    RankEntry::new(player, "player".to_string(), rating, 1, cert, at + 61_000)
}

#[test]
fn copies_of_the_lobby_agree() {
    let params = LobbyParametersV1::default();
    let (root, ann, ben) = (key(1), key(2), key(3));
    let mut start = LobbyStateV1::default();
    let parent = LobbyStateV1::default();
    let claim = AdminAction::Grant(AdminGrant::claim(&root, "root".to_string(), T0));
    let first = LobbyStateV1Delta {
        games: None,
        leaderboard: None,
        presence: None,
        administration: Some(vec![claim]),
    };
    start.apply_delta(&parent, &params, &Some(first)).unwrap();

    let (state, p) = open_game(&ann, T0, "ann");
    let listed = LobbyEntry::new(p.game_id, state.setup.0.clone().unwrap());
    let mut seated = LobbyEntry::new(p.game_id, state.setup.0.clone().unwrap());
    seated.opponent =
        Some(SignedAcceptance::new(&ann, &p.game_id, offer(&ben, &p, T0 + 500)));
    seated.snapshot = Some(SignedSnapshot::new(
        &ben,
        &p.game_id,
        "8/8/8/8/8/8/8/8 w - - 0 1".to_string(),
        3,
        GameResult::InProgress,
        1000,
        2000,
        T0 + 900,
    ));

    let grown = |delta: LobbyStateV1Delta| {
        let mut next = LobbyStateV1::default();
        next.merge(&parent, &params, &start).unwrap();
        next.apply_delta(&parent, &params, &Some(delta)).unwrap();
        next.verify(&next, &params).unwrap();
        next
    };
    let a = grown(LobbyStateV1Delta {
        games: Some(vec![listed]),
        leaderboard: Some(vec![rank(&ann, &ben, T0)]),
        presence: Some(vec![SignedPresence::new(
            &ann,
            "ann".to_string(),
            PresenceStatus::Online,
            T0,
        )]),
        administration: Some(vec![
            AdminAction::Announce(Announcement::new(&root, "hello".to_string(), T0 + 1)),
            AdminAction::Service(ServiceState::new(&root, false, "down".to_string(), T0 + 2)),
        ]),
    });
    let b = grown(LobbyStateV1Delta {
        games: Some(vec![seated]),
        leaderboard: Some(vec![rank(&ben, &ann, T0 + 7000)]),
        presence: Some(vec![SignedPresence::new(
            &ann,
            "ann".to_string(),
            PresenceStatus::Away,
            T0 + 9,
        )]),
        administration: Some(vec![
            AdminAction::TakeDown(Takedown::new(&root, p.game_id, "spam".to_string(), T0 + 3)),
            AdminAction::Service(ServiceState::new(&root, true, "up".to_string(), T0 + 4)),
        ]),
    });

    let both = |x: &LobbyStateV1, y: &LobbyStateV1| {
        let mut next = LobbyStateV1::default();
        next.merge(&parent, &params, x).unwrap();
        next.merge(&parent, &params, y).unwrap();
        next.verify(&next, &params).unwrap();
        next
    };
    let ab = both(&a, &b);
    assert_eq!(ab, both(&b, &a));
    let mut again = both(&ab, &a);
    assert_eq!(again, ab);
    again.prune(&params).unwrap();
    assert_eq!(again, ab);
    assert_eq!(ab.leaderboard.len(), 2);
    let places: Vec<Option<usize>> = [&ann, &ben, &root]
        .map(|k| ab.leaderboard.position_of(PlayerId::from(&k.verifying_key())))
        .to_vec();
    assert!(places == vec![Some(1), Some(2), None] || places == vec![Some(2), Some(1), None]);
    assert!(ab.games.get(&p.game_id).unwrap().is_live());
    assert!(ab.administration.available());
    assert!(ab.administration.is_taken_down(&p.game_id));
    assert_eq!(ab.administration.recent_announcements().len(), 1);
    assert_eq!(
        ab.presence.status_of(PlayerId::from(&ann.verifying_key()), T0 + 10),
        PresenceStatus::Away
    );
}

#[test]
fn a_record_in_game_notation_has_its_day() {
    let cert = certified(&key(1), &key(2), T0);
    let pgn = cert.to_pgn();
    assert!(pgn.contains("[Date \"2023.11.14\"]"), "{pgn}");
    assert!(pgn.contains("1. f3 e5 2. g4 Qh4# 0-1"), "{pgn}");

    let mut never = cert.clone();
    never.started_at = i64::MAX;
    assert!(never.to_pgn().contains("[Date \"????.??.??\"]"));
}

#[test]
fn searching_passes_over_case_beyond_ascii() {
    let creator = key(1);
    let (state, p) = open_game(&creator, T0, "\u{c9}mile");
    let mut lobby = LobbyStateV1::default();
    lobby
        .games
        .games
        .insert(p.game_id, LobbyEntry::new(p.game_id, state.setup.0.clone().unwrap()));
    assert_eq!(lobby.games.search("  \u{e9}MIL ").len(), 1);
    assert_eq!(lobby.games.search("emile").len(), 0);
    assert_eq!(lobby.games.search("   ").len(), 0);
}

#[test]
fn three_copies_of_a_page_agree_in_any_order() {
    let me = key(1);
    let params = PlayerParametersV1 { player: me.verifying_key() };
    let empty = PlayerStateV1::default();
    let page = |name: &str, at: i64| {
        let mut p = empty.clone();
        let delta = PlayerStateV1Delta {
            profile: Some(SignedProfile::new(&me, name.to_string(), at)),
            history: Some(vec![certified(&me, &key(2), at)]),
        };
        p.apply_delta(&empty, &params, &Some(delta)).unwrap();
        p
    };
    let both = |x: &PlayerStateV1, y: &PlayerStateV1| {
        let mut next = x.clone();
        next.merge(&empty, &params, y).unwrap();
        next
    };
    let (a, b, c) = (page("ann", T0), page("bob", T0 + 5000), page("cat", T0 + 3000));
    let ab = both(&a, &b);
    assert_eq!(both(&ab, &c), both(&a, &both(&b, &c)));
    assert_eq!(both(&ab, &b), ab);
    assert_eq!(both(&ab, &c).history.len(), 3);
    assert_eq!(both(&ab, &c).nickname(params.player_id()), "bob");
}

#[test]
fn three_copies_of_the_lobby_agree_in_any_order() {
    let params = LobbyParametersV1::default();
    let parent = LobbyStateV1::default();
    let (root, ann, ben) = (key(1), key(2), key(3));
    let grown = |games: Vec<LobbyEntry>, board: Vec<RankEntry>, acts: Vec<AdminAction>| {
        let mut next = LobbyStateV1::default();
        let claim = AdminAction::Grant(AdminGrant::claim(&root, "root".to_string(), T0));
        let mut administration = vec![claim];
        administration.extend(acts);
        let delta = LobbyStateV1Delta {
            games: Some(games),
            leaderboard: Some(board),
            presence: None,
            administration: Some(administration),
        };
        next.apply_delta(&parent, &params, &Some(delta)).unwrap();
        next.verify(&next, &params).unwrap();
        next
    };
    let (state, p) = open_game(&ann, T0, "ann");
    let listed = LobbyEntry::new(p.game_id, state.setup.0.clone().unwrap());
    let mut seated = LobbyEntry::new(p.game_id, state.setup.0.clone().unwrap());
    seated.opponent =
        Some(SignedAcceptance::new(&ann, &p.game_id, offer(&ben, &p, T0 + 500)));
    let notice = Announcement::new(&root, "hello".to_string(), T0 + 1);
    let a = grown(vec![listed], vec![rank(&ann, &ben, T0)], vec![]);
    let b = grown(vec![seated], vec![], vec![AdminAction::Announce(notice)]);
    let c = grown(
        vec![],
        vec![rank(&ben, &ann, T0 + 7000)],
        vec![AdminAction::Service(ServiceState::new(&root, false, "down".to_string(), T0 + 2))],
    );
    let both = |x: &LobbyStateV1, y: &LobbyStateV1| {
        let mut next = LobbyStateV1::default();
        next.merge(&parent, &params, x).unwrap();
        next.merge(&parent, &params, y).unwrap();
        next
    };
    let ab = both(&a, &b);
    let all = both(&ab, &c);
    assert_eq!(all, both(&a, &both(&b, &c)));
    assert_eq!(both(&ab, &b), ab);
    assert_eq!(all.leaderboard.len(), 2);
    assert!(all.games.get(&p.game_id).unwrap().is_live());
    assert!(!all.administration.available());
    assert_eq!(all.administration.recent_announcements().len(), 1);
    all.verify(&all, &params).unwrap();
}

#[test]
fn terms_are_signed_in_their_order() {
    let (creator, friend) = (key(1), key(2));
    let public = creator.verifying_key();
    let setup = GameSetup::mine_challenge(
        &public,
        Color::Black,
        TimeControl::default(),
        T0,
        "ann".to_string(),
        Some(friend.verifying_key()),
    );
    let game_id = setup.derive_game_id(&public);
    let mut bytes = b"freechess:v1:setup:".to_vec();
    bytes.extend_from_slice(&game_id.0);
    bytes.push(1);
    bytes.extend_from_slice(&setup.time_control.initial_secs.to_le_bytes());
    bytes.extend_from_slice(&setup.time_control.increment_secs.to_le_bytes());
    bytes.extend_from_slice(&T0.to_le_bytes());
    bytes.extend_from_slice(&setup.pow_nonce.to_le_bytes());
    bytes.extend_from_slice(&3u32.to_le_bytes());
    bytes.extend_from_slice(b"ann");
    bytes.push(1);
    bytes.extend_from_slice(&friend.verifying_key().0);
    assert_eq!(setup.sign(&creator, &game_id).signature, creator.sign(&bytes));
}

#[test]
fn copies_agree_though_different_opponents_were_seated() {
    let (creator, ann, ben) = (key(1), key(2), key(3));
    let (first, params) = started_game(&creator, &ann, T0);
    let (second, same) = started_game(&creator, &ben, T0);
    assert_eq!(params.game_id, same.game_id);
    let a = with_move(&first, &params, &creator, 0, "e2e4");
    let b = with(
        &second,
        &params,
        ChessGameStateV1Delta {
            clocks: Some(vec![ClockAttestation::new(&creator, &params.game_id, T0 + 9000)]),
            ..Default::default()
        },
    );
    let ab = merged(&a, &b, &params);
    assert_eq!(ab, merged(&b, &a, &params));
    assert!(ab.opponent.seated == a.opponent.seated || ab.opponent.seated == b.opponent.seated);
    assert_eq!(ab.moves.len(), 1);
    assert_eq!(merged(&ab, &b, &params), ab);
    assert_eq!(merged(&ab, &a, &params), ab);
}

#[test]
fn copies_agree_on_the_certificates_put_forward() {
    let (white, black) = (key(1), key(2));
    let (start, params) = started_game(&white, &black, T0);
    let over = with(
        &start,
        &params,
        ChessGameStateV1Delta {
            conclusion: Some(vec![SignedConclusion::resign(&white, &params.game_id, 0, T0 + 8000)]),
            ..Default::default()
        },
    );
    let draft = |at: i64| {
        CertificateDraft::from_game(&over, params.game_id, at, 1200, 1300).expect("it is over")
    };
    let put = |signer: &SigningKey, at: i64| {
        let proposal = SignedCertificateProposal::new(signer, draft(at));
        with(
            &over,
            &params,
            ChessGameStateV1Delta { certification: Some(vec![proposal]), ..Default::default() },
        )
    };
    let (a, b, c) = (put(&white, T0 + 9000), put(&black, T0 + 9000), put(&black, T0 + 9500));
    let ab = merged(&a, &b, &params);
    assert_eq!(ab, merged(&b, &a, &params));
    assert_eq!(ab.certification.proposals.len(), 2);
    assert_eq!(merged(&ab, &b, &params), ab);
    assert_eq!(merged(&ab, &a, &params), ab);
    assert_eq!(
        merged(&ab, &c, &params),
        merged(&a, &merged(&b, &c, &params), &params)
    );
    assert_eq!(merged(&b, &c, &params), merged(&c, &b, &params));

    let again = with(
        &ab,
        &params,
        ChessGameStateV1Delta {
            certification: Some(vec![SignedCertificateProposal::new(&white, draft(T0 + 9000))]),
            ..Default::default()
        },
    );
    assert_eq!(again, ab, "what came in already changes nothing");
}
