//! Who wins a game, and why: what a result says of the board, of the claims
//! that were signed and of who signed them.

use super::clocks::attested;
use super::conclusion::{
    claim_fault, claimed_result, concluded, deciding_claim, decides, undecided, ConclusionKind,
    SignedConclusion,
};
use super::moves::key_at;
use super::opponent::SignedAcceptance;
use super::setup::SignedGameSetup;
use super::{
    board_result, color_in, keys_of, line_of, over, provable, result_of, result_token, side_at,
    stamps, white_score, DrawReason, GameResult, GameView, WinReason,
};
use crate::chess::types::{Color, GameStatus};
use crate::crypto::VerifyingKey;
use crate::elo::Score;
use crate::identity::GameId;
use crate::prefix::lemma_leading;
use vstd::prelude::*;
use vstd::string::*;

verus! {

/// The creator has the side they chose, and whoever was seated has the other.
pub proof fn law_the_creator_has_the_side_they_chose(
    g: GameView,
    s: SignedGameSetup,
    a: SignedAcceptance,
)
    requires
        g.setup == Some(s),
        g.slot.seated == Some(a),
        s.creator != a.join.player,
    ensures
        color_in(keys_of(g), s.creator) == Some(s.setup.creator_plays),
        color_in(keys_of(g), a.join.player) is Some,
        color_in(keys_of(g), a.join.player) != Some(s.setup.creator_plays),
        s.setup.creator_plays == Color::White ==> (keys_of(g)->0).0 == s.creator && (keys_of(
            g,
        )->0).1 == a.join.player,
        s.setup.creator_plays == Color::Black ==> (keys_of(g)->0).1 == s.creator && (keys_of(
            g,
        )->0).0 == a.join.player,
{
}

/// Nobody plays in a game without terms or without a second player, and nobody
/// but the two ever does.
pub proof fn law_only_the_two_play(g: GameView, key: VerifyingKey)
    ensures
        keys_of(g) is Some <==> g.setup is Some && g.slot.seated is Some,
        color_in(keys_of(g), key) is Some <==> {
            &&& g.setup is Some && g.slot.seated is Some
            &&& key == g.setup->0.creator || key == g.slot.seated->0.join.player
        },
{
}

/// The key that signs a ply is that of the side to move, White at the even ones.
pub proof fn law_sides_sign_in_turn(white: VerifyingKey, black: VerifyingKey, ply: int)
    requires
        ply >= 0,
    ensures
        ply % 2 == 0 ==> key_at((white, black), ply) == white && side_at(ply) == Color::White,
        ply % 2 == 1 ==> key_at((white, black), ply) == black && side_at(ply) == Color::Black,
        key_at((white, black), ply + 1) == key_at((black, white), ply),
        side_at(ply + 1) == side_at(ply).other(),
{
}

/// Whoever claims that the opponent's time is out claims the game for their own
/// side, whichever that is.
pub proof fn law_a_timeout_is_won_by_whoever_claims_it(
    c: SignedConclusion,
    white: VerifyingKey,
    black: VerifyingKey,
)
    requires
        c.kind == ConclusionKind::TimeoutClaim,
        white != black,
    ensures
        c.claimant == white ==> claimed_result(c, Some((white, black))) == Some(
            GameResult::WhiteWins(WinReason::Timeout),
        ),
        c.claimant == black ==> claimed_result(c, Some((white, black))) == Some(
            GameResult::BlackWins(WinReason::Timeout),
        ),
{
}

/// Whoever resigns gives the game to the opponent, whichever side they have.
pub proof fn law_a_resignation_is_won_by_the_other(
    c: SignedConclusion,
    white: VerifyingKey,
    black: VerifyingKey,
)
    requires
        c.kind == ConclusionKind::Resignation,
        white != black,
    ensures
        c.claimant == white ==> claimed_result(c, Some((white, black))) == Some(
            GameResult::BlackWins(WinReason::Resignation),
        ),
        c.claimant == black ==> claimed_result(c, Some((white, black))) == Some(
            GameResult::WhiteWins(WinReason::Resignation),
        ),
{
}

/// A draw is nobody's, whoever files it.
pub proof fn law_an_agreed_draw_is_nobodys(
    c: SignedConclusion,
    white: VerifyingKey,
    black: VerifyingKey,
)
    requires
        c.kind == ConclusionKind::DrawAgreement,
        c.claimant == white || c.claimant == black,
    ensures
        claimed_result(c, Some((white, black))) == Some(GameResult::Draw(DrawReason::Agreement)),
{
}

/// What is claimed changes sides with the players: were the two to have each
/// other's colours, every claim would be for the same player as before.
pub proof fn law_claims_are_for_players_not_colours(
    c: SignedConclusion,
    white: VerifyingKey,
    black: VerifyingKey,
)
    requires
        white != black,
        c.claimant == white || c.claimant == black,
    ensures
        ({
            let (a, b) = (
                claimed_result(c, Some((white, black))),
                claimed_result(c, Some((black, white))),
            );
            &&& a is Some && b is Some
            &&& white_score(a->0) is Some && white_score(b->0) is Some
            &&& white_score(b->0)->0 == white_score(a->0)->0.inverted()
            &&& white_score(a->0)->0 == Score::Draw <==> c.kind == ConclusionKind::DrawAgreement
        }),
{
}

/// Somebody who does not play claims nothing.
pub proof fn law_strangers_claim_nothing(
    c: SignedConclusion,
    white: VerifyingKey,
    black: VerifyingKey,
)
    requires
        c.claimant != white,
        c.claimant != black,
    ensures
        claimed_result(c, Some((white, black))) is None,
        claimed_result(c, None) is None,
{
}

/// A resignation and an agreed draw need no proof. A claim on time needs it, from
/// the side that is to move and loses, and is dated within a minute of it.
pub proof fn law_only_claims_on_time_need_proof(c: SignedConclusion, g: GameView)
    ensures
        c.kind != ConclusionKind::TimeoutClaim ==> decides(c, g),
        c.kind == ConclusionKind::TimeoutClaim && decides(c, g) ==> {
            &&& g.setup is Some && g.slot.seated is Some
            &&& line_of(g).status == GameStatus::InProgress
            &&& c.at_ply == stamps(g).len()
            &&& c.claimant == (keys_of(g)->0).0 || c.claimant == (keys_of(g)->0).1
            &&& stamps(g).len() % 2 == 0 ==> c.claimant != (keys_of(g)->0).0 && attested(
                g.clocks,
                (keys_of(g)->0).0,
            ) is Some
            &&& stamps(g).len() % 2 == 1 ==> attested(g.clocks, (keys_of(g)->0).1) is Some
            &&& stamps(g).len() % 2 == 1 ==> c.claimant == (keys_of(g)->0).0
        },
        c.kind == ConclusionKind::TimeoutClaim && c.claimant == (keys_of(g)->0).0 && keys_of(
            g,
        ) is Some ==> (decides(c, g) <==> {
            let p = provable(g, Color::Black, c.at_ply as int);
            p is Some && p->0 <= c.at <= p->0 + 60_000
        }),
        c.kind == ConclusionKind::TimeoutClaim && c.claimant == (keys_of(g)->0).1 && keys_of(
            g,
        ) is Some && (keys_of(g)->0).0 != (keys_of(g)->0).1 ==> (decides(c, g) <==> {
            let p = provable(g, Color::White, c.at_ply as int);
            p is Some && p->0 <= c.at <= p->0 + 60_000
        }),
{
}

/// The first claim on record that is borne out decides a game, over the board
/// and over every later claim; where none is, the board decides.
pub proof fn law_the_first_claim_borne_out_decides(g: GameView, i: int)
    requires
        g.setup is Some,
        g.slot.seated is Some,
        0 <= i <= g.claims.len(),
        forall|j: int| 0 <= j < i ==> !decides(#[trigger] g.claims[j], g),
        i < g.claims.len() ==> decides(g.claims[i], g),
    ensures
        i < g.claims.len() && claimed_result(g.claims[i], keys_of(g)) is Some ==> result_of(g)
            == claimed_result(g.claims[i], keys_of(g))->0,
        i == g.claims.len() ==> result_of(g) == board_result(line_of(g).status),
{
    lemma_leading(undecided(g), g.claims.len());
    let n = crate::prefix::leading(undecided(g), g.claims.len());
    if n < i {
        assert(!undecided(g)(n as int));
        assert(!decides(g.claims[n as int], g));
    }
    if i < n {
        assert(undecided(g)(i));
    }
}

/// Without terms there is no game, and without a second player one that waits.
pub proof fn law_a_game_takes_two(g: GameView)
    ensures
        g.setup is None ==> result_of(g) == GameResult::InProgress,
        g.setup is Some && g.slot.seated is None ==> result_of(g) == GameResult::AwaitingOpponent,
        result_of(g) == GameResult::AwaitingOpponent ==> g.slot.seated is None,
        over(result_of(g)) ==> g.setup is Some && g.slot.seated is Some,
{
    lemma_result_by_claim(g);
}

/// A result off the board is some claim's.
proof fn lemma_result_by_claim(g: GameView)
    ensures
        concluded(g) is Some ==> exists|i: int|
            0 <= i < g.claims.len() && decides(#[trigger] g.claims[i], g) && concluded(g)
                == claimed_result(g.claims[i], keys_of(g)),
{
    lemma_leading(undecided(g), g.claims.len());
    if let Some(c) = deciding_claim(g) {
        let n = crate::prefix::leading(undecided(g), g.claims.len()) as int;
        assert(!undecided(g)(n));
        assert(decides(g.claims[n], g));
    }
}

/// A game is lost on time only by the side that is to move, to a claim that the
/// other signed and that the loser's own word bears out.
pub proof fn law_the_side_to_move_loses_on_time(g: GameView)
    requires
        result_of(g) == GameResult::WhiteWins(WinReason::Timeout) || result_of(g)
            == GameResult::BlackWins(WinReason::Timeout),
        keys_of(g) is Some ==> (keys_of(g)->0).0 != (keys_of(g)->0).1,
    ensures
        keys_of(g) is Some,
        result_of(g) == GameResult::WhiteWins(WinReason::Timeout) <==> stamps(g).len() % 2 == 1,
        exists|i: int|
            0 <= i < g.claims.len() && (#[trigger] g.claims[i]).kind == ConclusionKind::TimeoutClaim
                && decides(g.claims[i], g) && g.claims[i].claimant == (if result_of(g)
                == GameResult::WhiteWins(WinReason::Timeout) {
                (keys_of(g)->0).0
            } else {
                (keys_of(g)->0).1
            }),
{
    lemma_result_by_claim(g);
    let i = choose|i: int|
        0 <= i < g.claims.len() && decides(#[trigger] g.claims[i], g) && concluded(g)
            == claimed_result(g.claims[i], keys_of(g));
    assert(g.claims[i].kind == ConclusionKind::TimeoutClaim);
}

/// A game is won by resignation only where the loser signed it.
pub proof fn law_only_the_loser_resigns(g: GameView)
    requires
        result_of(g) == GameResult::WhiteWins(WinReason::Resignation) || result_of(g)
            == GameResult::BlackWins(WinReason::Resignation),
        keys_of(g) is Some ==> (keys_of(g)->0).0 != (keys_of(g)->0).1,
    ensures
        keys_of(g) is Some,
        exists|i: int|
            0 <= i < g.claims.len() && (#[trigger] g.claims[i]).kind == ConclusionKind::Resignation
                && g.claims[i].claimant == (if result_of(g) == GameResult::WhiteWins(
                WinReason::Resignation,
            ) {
                (keys_of(g)->0).1
            } else {
                (keys_of(g)->0).0
            }),
{
    lemma_result_by_claim(g);
    let i = choose|i: int|
        0 <= i < g.claims.len() && decides(#[trigger] g.claims[i], g) && concluded(g)
            == claimed_result(g.claims[i], keys_of(g));
    assert(g.claims[i].kind == ConclusionKind::Resignation);
}

/// A game is drawn by agreement only where a player filed it.
pub proof fn law_agreement_is_filed_by_a_player(g: GameView)
    requires
        result_of(g) == GameResult::Draw(DrawReason::Agreement),
    ensures
        keys_of(g) is Some,
        exists|i: int|
            0 <= i < g.claims.len() && (#[trigger] g.claims[i]).kind
                == ConclusionKind::DrawAgreement && (g.claims[i].claimant == (keys_of(g)->0).0
                || g.claims[i].claimant == (keys_of(g)->0).1),
{
    lemma_result_by_claim(g);
    let i = choose|i: int|
        0 <= i < g.claims.len() && decides(#[trigger] g.claims[i], g) && concluded(g)
            == claimed_result(g.claims[i], keys_of(g));
    assert(g.claims[i].kind == ConclusionKind::DrawAgreement);
}

/// A claim is taken in only where one of the players signed it for this game, at
/// a time; and a draw only where the other player signed the same.
pub proof fn law_claims_are_signed_by_players(
    c: SignedConclusion,
    white: VerifyingKey,
    black: VerifyingKey,
    game_id: GameId,
)
    requires
        white != black,
    ensures
        claim_fault(c, None, game_id) is Some,
        claim_fault(c, Some((white, black)), game_id) is None <==> {
            let bytes = super::conclusion::bytes_of_claim(c, game_id);
            &&& c.claimant == white || c.claimant == black
            &&& c.at > 0
            &&& crate::crypto::signature_fault(c.claimant.0, bytes, c.signature.0) is None
            &&& c.kind == ConclusionKind::DrawAgreement ==> {
                &&& c.countersignature is Some && c.counterparty is Some
                &&& c.counterparty->0 == white || c.counterparty->0 == black
                &&& c.counterparty->0 != c.claimant
                &&& crate::crypto::signature_fault(
                    (c.counterparty->0).0,
                    bytes,
                    (c.countersignature->0).0,
                ) is None
            }
        },
{
}

/// What the board shows is won by whoever mated, and otherwise drawn or still
/// going on.
pub proof fn law_the_board_has_its_winner(status: GameStatus)
    ensures
        board_result(status) == GameResult::WhiteWins(WinReason::Checkmate) <==> status
            == (GameStatus::Checkmate { winner: Color::White }),
        board_result(status) == GameResult::BlackWins(WinReason::Checkmate) <==> status
            == (GameStatus::Checkmate { winner: Color::Black }),
        board_result(status) == GameResult::InProgress <==> status == GameStatus::InProgress,
        board_result(status) == GameResult::Draw(DrawReason::Stalemate) <==> status
            == GameStatus::Stalemate,
        board_result(status) == GameResult::Draw(DrawReason::InsufficientMaterial) <==> status
            == GameStatus::InsufficientMaterial,
        board_result(status) == GameResult::Draw(DrawReason::FiftyMoveRule) <==> status
            == GameStatus::FiftyMoveRule,
        board_result(status) == GameResult::Draw(DrawReason::ThreefoldRepetition) <==> status
            == GameStatus::ThreefoldRepetition,
{
}

/// White scores by winning, and half by drawing; a game that goes on scores
/// nothing yet, and the notation says the same.
pub proof fn law_scores_follow_the_winner(result: GameResult)
    ensures
        white_score(result) is Some <==> over(result),
        over(result) <==> result is WhiteWins || result is BlackWins || result is Draw,
        result is WhiteWins ==> white_score(result) == Some(Score::Win) && result_token(result)
            == "1-0"@,
        result is BlackWins ==> white_score(result) == Some(Score::Loss) && result_token(result)
            == "0-1"@,
        result is Draw ==> white_score(result) == Some(Score::Draw) && result_token(result)
            == "1/2-1/2"@,
        !over(result) ==> result_token(result) == "*"@,
{
}

/// Nothing that is on record after a game is over on the board changes its
/// result but a claim: the result is the board's or some claim's.
pub proof fn law_results_are_the_boards_or_a_claims(g: GameView)
    requires
        over(result_of(g)),
    ensures
        result_of(g) == board_result(line_of(g).status) || exists|i: int|
            0 <= i < g.claims.len() && decides(#[trigger] g.claims[i], g) && claimed_result(
                g.claims[i],
                keys_of(g),
            ) == Some(result_of(g)),
{
    lemma_result_by_claim(g);
}

} // verus!
