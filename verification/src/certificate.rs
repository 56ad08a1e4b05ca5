//! The record of a finished game that both players sign.
//!
//! It carries the moves, so the game can be played through again, and both
//! signatures over the outcome. What happened on the board is checked on the
//! board; what happened off it rests on both having signed.

use crate::bytes::{
    le32, le_i32, le_i64, push_all, push_i32, push_i64, push_u32,
};
use crate::chess::board::{all_valid, move_error_text};
use crate::chess::game::{
    all_tell, fens_of, line_after, new_line, pgn_text, replay_fault, sans_of, tag_views, Game,
};
use crate::chess::types::{move_bytes, Color, Move};
use crate::crypto::{Signature, SigningKey, VerifyingKey};
use crate::elo::{Score, MAX_ELO, MIN_ELO};
use crate::game::setup::{
    enough_work, leading_zero_bits, time_fault, time_label, zero_bits, TimeControl,
    MAX_NICKNAME_LEN, POW_DIFFICULTY_BITS,
};
use crate::game::{
    board_result, domain, domain_bytes, keys_of, over, played, push_text, result_of,
    result_on_board, result_token, start_time, text_field, white_score, ChessGameStateV1,
    DrawReason, GameResult, GameView, WinReason,
};
use crate::identity::{id_of, sig_fault, verify_sig, GameId, PlayerId};
use crate::text::{
    digits, fault, join2, push_decimal, push_signed, signed_digits, with_number,
};
use vstd::prelude::*;
use vstd::string::*;
use vstd::utf8::encode_utf8;

verus! {

/// The longest game that a certificate carries.
pub const MAX_CERTIFIED_PLIES: usize = 1024;

/// The latest time that a certificate may name: the start of the year 2100 in
/// Unix milliseconds.
pub const MAX_CERTIFICATE_TIME_MS: i64 = 4_102_444_800_000;

/// How game notation writes a date.
pub const DATE_FORMAT: &'static str = "%Y.%m.%d";

/// What both players sign for.
#[verifier::ext_equal]
pub struct GameRecord {
    pub game_id: GameId,
    pub white: VerifyingKey,
    pub black: VerifyingKey,
    pub white_nickname: Seq<char>,
    pub black_nickname: Seq<char>,
    pub result: GameResult,
    pub moves: Seq<Move>,
    pub time_control: TimeControl,
    pub started_at: i64,
    pub finished_at: i64,
    pub white_rating_before: i32,
    pub black_rating_before: i32,
}

/// A record under both players' signatures.
#[verifier::ext_equal]
pub struct Certified {
    pub record: GameRecord,
    pub white_signature: Signature,
    pub black_signature: Signature,
}

/// The bytes of a list of moves.
pub open spec fn all_move_bytes(moves: Seq<Move>) -> Seq<u8>
    decreases moves.len(),
{
    if moves.len() == 0 {
        Seq::empty()
    } else {
        all_move_bytes(moves.drop_last()) + move_bytes(moves.last())
    }
}

pub open spec fn players_bytes(d: GameRecord) -> Seq<u8> {
    domain("certificate:"@) + d.game_id.0@ + d.white.0@ + d.black.0@ + text_field(d.white_nickname)
        + text_field(d.black_nickname)
}

pub open spec fn outcome_bytes(d: GameRecord) -> Seq<u8> {
    seq![tag_of_result(d.result)] + le32((d.moves.len() as usize) as u32) + all_move_bytes(d.moves)
}

pub open spec fn setting_bytes(d: GameRecord) -> Seq<u8> {
    le32(d.time_control.initial_secs) + le32(d.time_control.increment_secs) + le_i64(d.started_at)
        + le_i64(d.finished_at) + le_i32(d.white_rating_before) + le_i32(d.black_rating_before)
}

/// What both players sign.
pub open spec fn record_bytes(d: GameRecord) -> Seq<u8> {
    players_bytes(d) + outcome_bytes(d) + setting_bytes(d)
}

pub open spec fn tag_of_result(result: GameResult) -> u8 {
    match result {
        GameResult::InProgress => 0,
        GameResult::AwaitingOpponent => 1,
        GameResult::WhiteWins(WinReason::Checkmate) => 10,
        GameResult::WhiteWins(WinReason::Resignation) => 11,
        GameResult::WhiteWins(WinReason::Timeout) => 12,
        GameResult::BlackWins(WinReason::Checkmate) => 20,
        GameResult::BlackWins(WinReason::Resignation) => 21,
        GameResult::BlackWins(WinReason::Timeout) => 22,
        GameResult::Draw(DrawReason::Stalemate) => 30,
        GameResult::Draw(DrawReason::Agreement) => 31,
        GameResult::Draw(DrawReason::InsufficientMaterial) => 32,
        GameResult::Draw(DrawReason::FiftyMoveRule) => 33,
        GameResult::Draw(DrawReason::ThreefoldRepetition) => 34,
    }
}

/// A result as one byte.
pub fn result_tag(result: GameResult) -> (r: u8)
    ensures
        r == tag_of_result(result),
{
    match result {
        GameResult::InProgress => 0,
        GameResult::AwaitingOpponent => 1,
        GameResult::WhiteWins(WinReason::Checkmate) => 10,
        GameResult::WhiteWins(WinReason::Resignation) => 11,
        GameResult::WhiteWins(WinReason::Timeout) => 12,
        GameResult::BlackWins(WinReason::Checkmate) => 20,
        GameResult::BlackWins(WinReason::Resignation) => 21,
        GameResult::BlackWins(WinReason::Timeout) => 22,
        GameResult::Draw(DrawReason::Stalemate) => 30,
        GameResult::Draw(DrawReason::Agreement) => 31,
        GameResult::Draw(DrawReason::InsufficientMaterial) => 32,
        GameResult::Draw(DrawReason::FiftyMoveRule) => 33,
        GameResult::Draw(DrawReason::ThreefoldRepetition) => 34,
    }
}

/// No two results share a byte.
pub proof fn law_result_tags_differ(a: GameResult, b: GameResult)
    requires
        tag_of_result(a) == tag_of_result(b),
    ensures
        a == b,
{
}

/// A result as it stands in an error.
pub open spec fn result_name(result: GameResult) -> Seq<char> {
    match result {
        GameResult::InProgress => "InProgress"@,
        GameResult::AwaitingOpponent => "AwaitingOpponent"@,
        GameResult::WhiteWins(WinReason::Checkmate) => "WhiteWins(Checkmate)"@,
        GameResult::WhiteWins(WinReason::Resignation) => "WhiteWins(Resignation)"@,
        GameResult::WhiteWins(WinReason::Timeout) => "WhiteWins(Timeout)"@,
        GameResult::BlackWins(WinReason::Checkmate) => "BlackWins(Checkmate)"@,
        GameResult::BlackWins(WinReason::Resignation) => "BlackWins(Resignation)"@,
        GameResult::BlackWins(WinReason::Timeout) => "BlackWins(Timeout)"@,
        GameResult::Draw(DrawReason::Stalemate) => "Draw(Stalemate)"@,
        GameResult::Draw(DrawReason::Agreement) => "Draw(Agreement)"@,
        GameResult::Draw(DrawReason::InsufficientMaterial) => "Draw(InsufficientMaterial)"@,
        GameResult::Draw(DrawReason::FiftyMoveRule) => "Draw(FiftyMoveRule)"@,
        GameResult::Draw(DrawReason::ThreefoldRepetition) => "Draw(ThreefoldRepetition)"@,
    }
}

fn name_result(result: GameResult) -> (r: &'static str)
    ensures
        r@ == result_name(result),
{
    match result {
        GameResult::InProgress => "InProgress",
        GameResult::AwaitingOpponent => "AwaitingOpponent",
        GameResult::WhiteWins(WinReason::Checkmate) => "WhiteWins(Checkmate)",
        GameResult::WhiteWins(WinReason::Resignation) => "WhiteWins(Resignation)",
        GameResult::WhiteWins(WinReason::Timeout) => "WhiteWins(Timeout)",
        GameResult::BlackWins(WinReason::Checkmate) => "BlackWins(Checkmate)",
        GameResult::BlackWins(WinReason::Resignation) => "BlackWins(Resignation)",
        GameResult::BlackWins(WinReason::Timeout) => "BlackWins(Timeout)",
        GameResult::Draw(DrawReason::Stalemate) => "Draw(Stalemate)",
        GameResult::Draw(DrawReason::Agreement) => "Draw(Agreement)",
        GameResult::Draw(DrawReason::InsufficientMaterial) => "Draw(InsufficientMaterial)",
        GameResult::Draw(DrawReason::FiftyMoveRule) => "Draw(FiftyMoveRule)",
        GameResult::Draw(DrawReason::ThreefoldRepetition) => "Draw(ThreefoldRepetition)",
    }
}

pub fn copy_moves(moves: &Vec<Move>) -> (r: Vec<Move>)
    ensures
        r@ == moves@,
{
    let mut out: Vec<Move> = Vec::new();
    let mut i: usize = 0;
    while i < moves.len()
        invariant
            i <= moves@.len(),
            out@ == moves@.take(i as int),
        decreases moves.len() - i,
    {
        out.push(moves[i]);
        assert(out@ =~= moves@.take(i + 1));
        i = i + 1;
    }
    assert(moves@.take(moves@.len() as int) =~= moves@);
    out
}

pub fn same_moves(a: &Vec<Move>, b: &Vec<Move>) -> (r: bool)
    ensures
        r == (a@ == b@),
{
    if a.len() != b.len() {
        return false;
    }
    let mut i: usize = 0;
    while i < a.len()
        invariant
            i <= a@.len(),
            a@.len() == b@.len(),
            forall|j: int| 0 <= j < i ==> a@[j] == b@[j],
        decreases a.len() - i,
    {
        if a[i] != b[i] {
            assert(a@[i as int] != b@[i as int]);
            return false;
        }
        i = i + 1;
    }
    assert(a@ =~= b@);
    true
}

/// A record that nobody has signed yet.
#[derive(Debug, PartialEq, Eq)]
pub struct CertificateDraft {
    pub game_id: GameId,
    pub white: VerifyingKey,
    pub black: VerifyingKey,
    pub white_nickname: String,
    pub black_nickname: String,
    pub result: GameResult,
    pub moves: Vec<Move>,
    pub time_control: TimeControl,
    pub started_at: i64,
    pub finished_at: i64,
    /// What the players were rated before the game.
    pub white_rating_before: i32,
    pub black_rating_before: i32,
}

impl View for CertificateDraft {
    type V = GameRecord;

    open spec fn view(&self) -> GameRecord {
        GameRecord {
            game_id: self.game_id,
            white: self.white,
            black: self.black,
            white_nickname: self.white_nickname@,
            black_nickname: self.black_nickname@,
            result: self.result,
            moves: self.moves@,
            time_control: self.time_control,
            started_at: self.started_at,
            finished_at: self.finished_at,
            white_rating_before: self.white_rating_before,
            black_rating_before: self.black_rating_before,
        }
    }
}

impl Clone for CertificateDraft {
    fn clone(&self) -> (r: Self)
        ensures
            r@ == self@,
    {
        CertificateDraft {
            game_id: self.game_id,
            white: self.white,
            black: self.black,
            white_nickname: self.white_nickname.clone(),
            black_nickname: self.black_nickname.clone(),
            result: self.result,
            moves: copy_moves(&self.moves),
            time_control: self.time_control,
            started_at: self.started_at,
            finished_at: self.finished_at,
            white_rating_before: self.white_rating_before,
            black_rating_before: self.black_rating_before,
        }
    }
}

/// The nicknames of White and of Black in a game.
pub open spec fn nicknames(g: GameView) -> (Seq<char>, Seq<char>) {
    let creator = g.setup->0.setup.creator_nickname@;
    let joined = g.slot.seated->0.join.nickname@;
    match g.setup->0.setup.creator_plays {
        Color::White => (creator, joined),
        Color::Black => (joined, creator),
    }
}

/// The record of a finished game.
pub open spec fn record_of(
    g: GameView,
    game_id: GameId,
    finished_at: i64,
    white_rating_before: i32,
    black_rating_before: i32,
) -> Option<GameRecord> {
    if !over(result_of(g)) || keys_of(g) is None {
        None
    } else {
        Some(
            GameRecord {
                game_id,
                white: (keys_of(g)->0).0,
                black: (keys_of(g)->0).1,
                white_nickname: nicknames(g).0,
                black_nickname: nicknames(g).1,
                result: result_of(g),
                moves: played(g),
                time_control: g.setup->0.setup.time_control,
                started_at: start_time(g)->0,
                finished_at,
                white_rating_before,
                black_rating_before,
            },
        )
    }
}

impl CertificateDraft {
    /// The record of a finished game, for both players to sign. A game that is
    /// not over has none.
    pub fn from_game(
        state: &ChessGameStateV1,
        game_id: GameId,
        finished_at: i64,
        white_rating_before: i32,
        black_rating_before: i32,
    ) -> (r: Option<CertificateDraft>)
        requires
            state@.wf(),
        ensures
            match r {
                Some(d) => record_of(
                    state@,
                    game_id,
                    finished_at,
                    white_rating_before,
                    black_rating_before,
                ) == Some(d@) && all_valid(d@.moves),
                None => record_of(
                    state@,
                    game_id,
                    finished_at,
                    white_rating_before,
                    black_rating_before,
                ) is None,
            },
    {
        let result = state.result();
        if !result.is_over() {
            return None;
        }
        let (white, black) = match state.player_keys() {
            Some(keys) => keys,
            None => return None,
        };
        match (&state.setup.0, &state.opponent.seated) {
            (Some(s), Some(a)) => {
                let (white_nickname, black_nickname) = match s.setup.creator_plays {
                    Color::White => (s.setup.creator_nickname.clone(), a.join.nickname.clone()),
                    Color::Black => (a.join.nickname.clone(), s.setup.creator_nickname.clone()),
                };
                let started_at = if a.join.joined_at < s.setup.created_at {
                    s.setup.created_at
                } else {
                    a.join.joined_at
                };
                Some(
                    CertificateDraft {
                        game_id,
                        white,
                        black,
                        white_nickname,
                        black_nickname,
                        result,
                        moves: state.moves.move_list(),
                        time_control: s.setup.time_control,
                        started_at,
                        finished_at,
                        white_rating_before,
                        black_rating_before,
                    },
                )
            },
            _ => None,
        }
    }

    /// What both players sign.
    pub fn signing_bytes(&self) -> (r: Vec<u8>)
        ensures
            r@ == record_bytes(self@),
    {
        let mut buf = self.players_part();
        self.push_outcome(&mut buf);
        self.push_settings(&mut buf);
        assert(buf@ =~= record_bytes(self@));
        buf
    }

    fn players_part(&self) -> (r: Vec<u8>)
        ensures
            r@ == players_bytes(self@),
    {
        let mut buf = domain_bytes("certificate:");
        push_all(&mut buf, self.game_id.0.as_slice());
        push_all(&mut buf, self.white.0.as_slice());
        push_all(&mut buf, self.black.0.as_slice());
        push_text(&mut buf, self.white_nickname.as_str());
        push_text(&mut buf, self.black_nickname.as_str());
        buf
    }

    fn push_outcome(&self, buf: &mut Vec<u8>)
        ensures
            final(buf)@ == old(buf)@ + outcome_bytes(self@),
    {
        let ghost start = buf@;
        buf.push(result_tag(self.result));
        let n = self.moves.len();
        push_u32(buf, n as u32);
        let ghost head = seq![tag_of_result(self.result)] + le32(n as u32);
        assert(buf@ =~= start + head + all_move_bytes(self.moves@.take(0)));
        let mut i: usize = 0;
        while i < n
            invariant
                i <= n,
                n == self.moves@.len(),
                buf@ == start + head + all_move_bytes(self.moves@.take(i as int)),
            decreases n - i,
        {
            let bytes = self.moves[i].signing_bytes();
            push_all(buf, bytes.as_slice());
            proof {
                let next = self.moves@.take(i + 1);
                assert(next.drop_last() =~= self.moves@.take(i as int));
                assert(buf@ =~= start + head + all_move_bytes(next));
            }
            i = i + 1;
        }
        assert(self.moves@.take(n as int) =~= self.moves@);
        assert(buf@ =~= start + outcome_bytes(self@));
    }

    fn push_settings(&self, buf: &mut Vec<u8>)
        ensures
            final(buf)@ == old(buf)@ + setting_bytes(self@),
    {
        let ghost start = buf@;
        push_u32(buf, self.time_control.initial_secs);
        push_u32(buf, self.time_control.increment_secs);
        push_i64(buf, self.started_at);
        push_i64(buf, self.finished_at);
        push_i32(buf, self.white_rating_before);
        push_i32(buf, self.black_rating_before);
        assert(buf@ =~= start + setting_bytes(self@));
    }

    /// One player's signature.
    pub fn sign(&self, key: &SigningKey) -> (r: Signature)
        ensures
            r == key.signed(record_bytes(self@)),
            crate::crypto::signature_fault(key.public().0, record_bytes(self@), r.0) is None,
    {
        let message = self.signing_bytes();
        key.sign(message.as_slice())
    }

    /// The certificate, given both signatures.
    pub fn assemble(self, white_signature: Signature, black_signature: Signature) -> (r:
        GameCertificate)
        ensures
            r@ == (Certified { record: self@, white_signature, black_signature }),
    {
        GameCertificate {
            game_id: self.game_id,
            white: self.white,
            black: self.black,
            white_nickname: self.white_nickname,
            black_nickname: self.black_nickname,
            result: self.result,
            moves: self.moves,
            time_control: self.time_control,
            started_at: self.started_at,
            finished_at: self.finished_at,
            white_rating_before: self.white_rating_before,
            black_rating_before: self.black_rating_before,
            white_signature,
            black_signature,
        }
    }

    /// Whether two drafts are of one record.
    pub fn same_record(&self, other: &CertificateDraft) -> (r: bool)
        ensures
            r == (self@ == other@),
    {
        self.game_id.same(&other.game_id) && self.white.same(&other.white) && self.black.same(
            &other.black,
        ) && self.white_nickname == other.white_nickname && self.black_nickname
            == other.black_nickname && self.result == other.result && same_moves(
            &self.moves,
            &other.moves,
        ) && self.time_control == other.time_control && self.started_at == other.started_at
            && self.finished_at == other.finished_at && self.white_rating_before
            == other.white_rating_before && self.black_rating_before == other.black_rating_before
    }
}

/// The record of a finished game under both players' signatures.
#[derive(Debug, PartialEq, Eq)]
pub struct GameCertificate {
    pub game_id: GameId,
    pub white: VerifyingKey,
    pub black: VerifyingKey,
    pub white_nickname: String,
    pub black_nickname: String,
    pub result: GameResult,
    /// Every move of the game.
    pub moves: Vec<Move>,
    pub time_control: TimeControl,
    pub started_at: i64,
    pub finished_at: i64,
    /// What the players were rated before the game.
    pub white_rating_before: i32,
    pub black_rating_before: i32,
    pub white_signature: Signature,
    pub black_signature: Signature,
}

impl View for GameCertificate {
    type V = Certified;

    open spec fn view(&self) -> Certified {
        Certified {
            record: GameRecord {
                game_id: self.game_id,
                white: self.white,
                black: self.black,
                white_nickname: self.white_nickname@,
                black_nickname: self.black_nickname@,
                result: self.result,
                moves: self.moves@,
                time_control: self.time_control,
                started_at: self.started_at,
                finished_at: self.finished_at,
                white_rating_before: self.white_rating_before,
                black_rating_before: self.black_rating_before,
            },
            white_signature: self.white_signature,
            black_signature: self.black_signature,
        }
    }
}

impl Clone for GameCertificate {
    fn clone(&self) -> (r: Self)
        ensures
            r@ == self@,
    {
        self.draft().assemble(self.white_signature, self.black_signature)
    }
}

/// What is wrong with a nickname on a certificate.
pub open spec fn cert_nickname_fault(whose: Seq<char>, nickname: Seq<char>) -> Option<Seq<char>> {
    if encode_utf8(nickname).len() as usize > MAX_NICKNAME_LEN {
        Some(whose + "'s nickname is longer than "@ + digits(MAX_NICKNAME_LEN as nat) + " bytes"@)
    } else {
        None
    }
}

/// What is wrong with a rating on a certificate.
pub open spec fn cert_rating_fault(whose: Seq<char>, rating: i32) -> Option<Seq<char>> {
    if !(MIN_ELO <= rating <= MAX_ELO) {
        Some(
            whose + "'s rating of "@ + signed_digits(rating as int) + " is outside "@
                + signed_digits(MIN_ELO as int) + "..="@ + signed_digits(MAX_ELO as int),
        )
    } else {
        None
    }
}

/// What is wrong with a record by its terms alone, the first thing first.
pub open spec fn terms_fault(d: GameRecord) -> Option<Seq<char>> {
    if d.white == d.black {
        Some("a certificate cannot have the same player on both sides"@)
    } else if !over(d.result) {
        Some("certificate records a game that is not over"@)
    } else if d.moves.len() > MAX_CERTIFIED_PLIES {
        Some(
            "certificate carries "@ + digits(d.moves.len()) + " plies, over the "@ + digits(
                MAX_CERTIFIED_PLIES as nat,
            ) + " limit"@,
        )
    } else if !enough_work(d.game_id.0) {
        Some(
            "certificate game id carries "@ + digits(zero_bits(d.game_id.0@))
                + " bits of proof-of-work, need "@ + digits(POW_DIFFICULTY_BITS as nat),
        )
    } else if d.finished_at < d.started_at {
        Some("certificate finishes before it starts"@)
    } else if d.started_at <= 0 {
        Some("certificate has a non-positive start time"@)
    } else if d.finished_at > MAX_CERTIFICATE_TIME_MS {
        Some(
            "certificate finishes at "@ + signed_digits(d.finished_at as int) + ", past the "@
                + signed_digits(MAX_CERTIFICATE_TIME_MS as int) + " bound"@,
        )
    } else if cert_nickname_fault("white"@, d.white_nickname) is Some {
        cert_nickname_fault("white"@, d.white_nickname)
    } else if cert_nickname_fault("black"@, d.black_nickname) is Some {
        cert_nickname_fault("black"@, d.black_nickname)
    } else if cert_rating_fault("white"@, d.white_rating_before) is Some {
        cert_rating_fault("white"@, d.white_rating_before)
    } else if cert_rating_fault("black"@, d.black_rating_before) is Some {
        cert_rating_fault("black"@, d.black_rating_before)
    } else {
        time_fault(d.time_control)
    }
}

/// Whether a result is one that only a position can give.
pub open spec fn told_by_board(result: GameResult) -> bool {
    match result {
        GameResult::WhiteWins(WinReason::Checkmate) => true,
        GameResult::BlackWins(WinReason::Checkmate) => true,
        GameResult::Draw(DrawReason::Agreement) => false,
        GameResult::Draw(_) => true,
        _ => false,
    }
}

/// What is wrong with a record on the board.
pub open spec fn position_fault(d: GameRecord) -> Option<Seq<char>> {
    match replay_fault(new_line(), d.moves) {
        Some((ply, e)) => Some(
            "certificate contains an illegal move at ply "@ + digits(ply as nat) + ": "@
                + move_error_text(e),
        ),
        None => {
            let actual = board_result(line_after(new_line(), d.moves).status);
            if actual != GameResult::InProgress && actual != d.result {
                Some(
                    "certificate claims "@ + result_name(d.result)
                        + " but the final position is "@ + result_name(actual),
                )
            } else if actual == GameResult::InProgress && told_by_board(d.result) {
                Some("certificate claims a board result that the final position does not support"@)
            } else {
                None
            }
        },
    }
}

/// What is wrong with a certificate, the first thing first.
pub open spec fn cert_fault(c: Certified) -> Option<Seq<char>> {
    let bytes = record_bytes(c.record);
    let by_white = sig_fault(c.record.white, bytes, c.white_signature, "white's certificate"@);
    let by_black = sig_fault(c.record.black, bytes, c.black_signature, "black's certificate"@);
    if terms_fault(c.record) is Some {
        terms_fault(c.record)
    } else if by_white is Some {
        by_white
    } else if by_black is Some {
        by_black
    } else {
        position_fault(c.record)
    }
}

fn check_nickname(whose: &str, nickname: &String) -> (r: Result<(), String>)
    ensures
        fault(r) == cert_nickname_fault(whose@, nickname@),
{
    if nickname.as_str().len() > MAX_NICKNAME_LEN {
        let mut text = join2(whose, "'s nickname is longer than ");
        push_decimal(&mut text, MAX_NICKNAME_LEN as u128);
        text.push_str(" bytes");
        return Err(text);
    }
    Ok(())
}

fn check_rating(whose: &str, rating: i32) -> (r: Result<(), String>)
    ensures
        fault(r) == cert_rating_fault(whose@, rating),
{
    if rating < MIN_ELO || rating > MAX_ELO {
        let mut text = join2(whose, "'s rating of ");
        push_signed(&mut text, rating as i64);
        text.push_str(" is outside ");
        push_signed(&mut text, MIN_ELO as i64);
        text.push_str("..=");
        push_signed(&mut text, MAX_ELO as i64);
        return Err(text);
    }
    Ok(())
}

/// The side that a player had.
pub open spec fn color_for(c: Certified, player: PlayerId) -> Option<Color> {
    if id_of(c.record.white) == player {
        Some(Color::White)
    } else if id_of(c.record.black) == player {
        Some(Color::Black)
    } else {
        None
    }
}

/// What a player scored.
pub open spec fn player_score(c: Certified, player: PlayerId) -> Option<Score> {
    match (color_for(c, player), white_score(c.record.result)) {
        (Some(Color::White), Some(score)) => Some(score),
        (Some(Color::Black), Some(score)) => Some(score.inverted()),
        _ => None,
    }
}

/// What a player's opponent was rated.
pub open spec fn opponent_rating(c: Certified, player: PlayerId) -> Option<i32> {
    match color_for(c, player) {
        Some(Color::White) => Some(c.record.black_rating_before),
        Some(Color::Black) => Some(c.record.white_rating_before),
        None => None,
    }
}

/// The moves of a record that are played through: none where one of them
/// cannot be made.
pub open spec fn record_moves(d: GameRecord) -> Seq<Move> {
    if replay_fault(new_line(), d.moves) is None {
        d.moves
    } else {
        Seq::empty()
    }
}

/// A day as text, in UTC; `None` where the time is out of range.
pub uninterp spec fn utc_text(unix_ms: i64, format: Seq<char>) -> Option<Seq<char>>;

/// `chrono::TimeZone::timestamp_millis_opt` for `chrono::Utc`, and
/// `chrono::DateTime::format`: the text depends on the time and the format
/// alone.
#[verifier::external_body]
fn format_utc(unix_ms: i64, format: &str) -> (r: Option<String>)
    requires
        format@ == DATE_FORMAT@,
    ensures
        match r {
            Some(text) => utc_text(unix_ms, format@) == Some(text@),
            None => utc_text(unix_ms, format@) is None,
        },
{
    chrono::TimeZone::timestamp_millis_opt(&chrono::Utc, unix_ms).single().map(
        |dt| dt.format(format).to_string(),
    )
}

/// A date as game notation has it, given what the calendar says.
pub open spec fn date_or_unknown(day: Option<Seq<char>>) -> Seq<char> {
    match day {
        Some(text) => text,
        None => "????.??.??"@,
    }
}

/// The tags of a record in game notation, given its date.
pub open spec fn record_tags(d: GameRecord, date: Seq<char>) -> Seq<(Seq<char>, Seq<char>)> {
    seq![
        ("Event"@, "FreeChess"@),
        ("Site"@, "Freenet"@),
        ("Date"@, date),
        ("White"@, d.white_nickname),
        ("Black"@, d.black_nickname),
        ("WhiteElo"@, signed_digits(d.white_rating_before as int)),
        ("BlackElo"@, signed_digits(d.black_rating_before as int)),
        ("TimeControl"@, time_label(d.time_control)),
    ]
}

/// A record in game notation, given its date.
pub open spec fn record_pgn(d: GameRecord, date: Seq<char>) -> Seq<char> {
    pgn_text(record_tags(d, date), sans_of(new_line(), record_moves(d)), result_token(d.result))
}

fn rating_text(rating: i32) -> (r: String)
    ensures
        r@ == signed_digits(rating as int),
{
    let mut out = String::new();
    push_signed(&mut out, rating as i64);
    assert(out@ =~= signed_digits(rating as int));
    out
}

impl GameCertificate {
    fn draft(&self) -> (r: CertificateDraft)
        ensures
            r@ == self@.record,
    {
        CertificateDraft {
            game_id: self.game_id,
            white: self.white,
            black: self.black,
            white_nickname: self.white_nickname.clone(),
            black_nickname: self.black_nickname.clone(),
            result: self.result,
            moves: copy_moves(&self.moves),
            time_control: self.time_control,
            started_at: self.started_at,
            finished_at: self.finished_at,
            white_rating_before: self.white_rating_before,
            black_rating_before: self.black_rating_before,
        }
    }

    fn check_terms(&self) -> (r: Result<(), String>)
        ensures
            fault(r) == terms_fault(self@.record),
    {
        if self.white.same(&self.black) {
            return Err("a certificate cannot have the same player on both sides".to_string());
        }
        if !self.result.is_over() {
            return Err("certificate records a game that is not over".to_string());
        }
        if self.moves.len() > MAX_CERTIFIED_PLIES {
            let mut text = with_number(
                "certificate carries ",
                self.moves.len() as u128,
                " plies, over the ",
            );
            push_decimal(&mut text, MAX_CERTIFIED_PLIES as u128);
            text.push_str(" limit");
            return Err(text);
        }
        let bits = leading_zero_bits(self.game_id.0.as_slice());
        if bits < POW_DIFFICULTY_BITS {
            let mut text = with_number(
                "certificate game id carries ",
                bits as u128,
                " bits of proof-of-work, need ",
            );
            push_decimal(&mut text, POW_DIFFICULTY_BITS as u128);
            return Err(text);
        }
        if self.finished_at < self.started_at {
            return Err("certificate finishes before it starts".to_string());
        }
        if self.started_at <= 0 {
            return Err("certificate has a non-positive start time".to_string());
        }
        if self.finished_at > MAX_CERTIFICATE_TIME_MS {
            let mut text = "certificate finishes at ".to_string();
            push_signed(&mut text, self.finished_at);
            text.push_str(", past the ");
            push_signed(&mut text, MAX_CERTIFICATE_TIME_MS);
            text.push_str(" bound");
            return Err(text);
        }
        match check_nickname("white", &self.white_nickname) {
            Ok(()) => {},
            Err(e) => return Err(e),
        }
        match check_nickname("black", &self.black_nickname) {
            Ok(()) => {},
            Err(e) => return Err(e),
        }
        match check_rating("white", self.white_rating_before) {
            Ok(()) => {},
            Err(e) => return Err(e),
        }
        match check_rating("black", self.black_rating_before) {
            Ok(()) => {},
            Err(e) => return Err(e),
        }
        self.time_control.verify()
    }

    fn check_position(&self) -> (r: Result<(), String>)
        requires
            all_valid(self@.record.moves),
        ensures
            fault(r) == position_fault(self@.record),
    {
        match Game::from_moves(self.moves.as_slice()) {
            Err((ply, e)) => {
                let mut text = with_number(
                    "certificate contains an illegal move at ply ",
                    ply as u128,
                    ": ",
                );
                let why = e.message();
                text.push_str(why.as_str());
                Err(text)
            },
            Ok(game) => {
                let actual = result_on_board(game.status());
                if actual != GameResult::InProgress && actual != self.result {
                    let mut text = join2("certificate claims ", name_result(self.result));
                    text.push_str(" but the final position is ");
                    text.push_str(name_result(actual));
                    return Err(text);
                }
                let by_board = match self.result {
                    GameResult::WhiteWins(WinReason::Checkmate)
                    | GameResult::BlackWins(WinReason::Checkmate)
                    | GameResult::Draw(DrawReason::Stalemate)
                    | GameResult::Draw(DrawReason::InsufficientMaterial)
                    | GameResult::Draw(DrawReason::FiftyMoveRule)
                    | GameResult::Draw(DrawReason::ThreefoldRepetition) => true,
                    _ => false,
                };
                if actual == GameResult::InProgress && by_board {
                    return Err(
                        "certificate claims a board result that the final position does not support".to_string(),
                    );
                }
                Ok(())
            },
        }
    }

    /// Check everything that the certificate says: its terms, both signatures,
    /// the moves, and that the last position bears out the result.
    pub fn verify(&self) -> (r: Result<(), String>)
        requires
            all_valid(self@.record.moves),
        ensures
            fault(r) == cert_fault(self@),
    {
        match self.check_terms() {
            Ok(()) => {},
            Err(e) => return Err(e),
        }
        let bytes = self.draft().signing_bytes();
        match verify_sig(&self.white, bytes.as_slice(), &self.white_signature, "white's certificate") {
            Ok(()) => {},
            Err(e) => return Err(e),
        }
        match verify_sig(&self.black, bytes.as_slice(), &self.black_signature, "black's certificate") {
            Ok(()) => {},
            Err(e) => return Err(e),
        }
        self.check_position()
    }

    pub fn white_id(&self) -> (r: PlayerId)
        ensures
            r == id_of(self@.record.white),
    {
        PlayerId::from(&self.white)
    }

    pub fn black_id(&self) -> (r: PlayerId)
        ensures
            r == id_of(self@.record.black),
    {
        PlayerId::from(&self.black)
    }

    pub fn involves(&self, player: PlayerId) -> (r: bool)
        ensures
            r == (color_for(self@, player) is Some),
    {
        self.white_id().same(&player) || self.black_id().same(&player)
    }

    /// The side that a player had.
    pub fn color_of(&self, player: PlayerId) -> (r: Option<Color>)
        ensures
            r == color_for(self@, player),
    {
        if self.white_id().same(&player) {
            Some(Color::White)
        } else if self.black_id().same(&player) {
            Some(Color::Black)
        } else {
            None
        }
    }

    /// What a player scored.
    pub fn score_for(&self, player: PlayerId) -> (r: Option<Score>)
        ensures
            r == player_score(self@, player),
    {
        match (self.color_of(player), self.result.score_for_white()) {
            (Some(Color::White), Some(score)) => Some(score),
            (Some(Color::Black), Some(score)) => Some(score.inverse()),
            _ => None,
        }
    }

    /// What a player's opponent was rated.
    pub fn opponent_rating_for(&self, player: PlayerId) -> (r: Option<i32>)
        ensures
            r == opponent_rating(self@, player),
    {
        match self.color_of(player) {
            Some(Color::White) => Some(self.black_rating_before),
            Some(Color::Black) => Some(self.white_rating_before),
            None => None,
        }
    }

    /// The moves played through.
    pub fn replay(&self) -> (r: Game)
        requires
            all_valid(self@.record.moves),
        ensures
            r.wf(),
            r.line() == line_after(new_line(), record_moves(self@.record)),
            r.played() == record_moves(self@.record),
            r.positions() == fens_of(new_line(), record_moves(self@.record)),
            r.sans() == sans_of(new_line(), record_moves(self@.record)),
            all_tell(r.deeds(), new_line(), record_moves(self@.record)),
    {
        match Game::from_moves(self.moves.as_slice()) {
            Ok(game) => game,
            Err(_) => {
                let game = Game::new();
                proof {
                    let none = Seq::<Move>::empty();
                    assert(none.take(0) =~= none);
                    assert(game.positions() =~= fens_of(new_line(), none));
                    assert(game.sans() =~= sans_of(new_line(), none));
                }
                game
            },
        }
    }

    /// The game in portable game notation.
    pub fn to_pgn(&self) -> (r: String)
        requires
            all_valid(self@.record.moves),
        ensures
            r@ == record_pgn(
                self@.record,
                date_or_unknown(utc_text(self@.record.started_at, DATE_FORMAT@)),
            ),
    {
        let date = format_date(self.started_at);
        self.to_pgn_dated(date)
    }

    /// The game in portable game notation, under a date.
    pub fn to_pgn_dated(&self, date: String) -> (r: String)
        requires
            all_valid(self@.record.moves),
        ensures
            r@ == record_pgn(self@.record, date@),
    {
        let mut tags: Vec<(&str, String)> = Vec::new();
        tags.push(("Event", "FreeChess".to_string()));
        tags.push(("Site", "Freenet".to_string()));
        tags.push(("Date", date));
        tags.push(("White", self.white_nickname.clone()));
        tags.push(("Black", self.black_nickname.clone()));
        tags.push(("WhiteElo", rating_text(self.white_rating_before)));
        tags.push(("BlackElo", rating_text(self.black_rating_before)));
        tags.push(("TimeControl", self.time_control.label()));
        assert(tag_views(tags@) =~= record_tags(self@.record, date@));
        self.replay().to_pgn(tags.as_slice(), self.result.pgn_token())
    }

    /// What certificates are ordered by.
    pub fn order_key(&self) -> (r: (i64, [u8; 32]))
        ensures
            r == (self@.record.finished_at, self@.record.game_id.0),
    {
        (self.finished_at, self.game_id.0)
    }
}

/// A time's date as game notation has it, in UTC.
fn format_date(unix_ms: i64) -> (r: String)
    ensures
        r@ == date_or_unknown(utc_text(unix_ms, DATE_FORMAT@)),
{
    match format_utc(unix_ms, DATE_FORMAT) {
        Some(text) => text,
        None => "????.??.??".to_string(),
    }
}

/// A certificate that both players signed holds wherever its record does.
pub proof fn law_two_signatures_make_a_certificate(
    record: GameRecord,
    white: SigningKey,
    black: SigningKey,
)
    requires
        record.white == white.public(),
        record.black == black.public(),
        terms_fault(record) is None,
        position_fault(record) is None,
        crate::crypto::signature_fault(
            white.public().0,
            record_bytes(record),
            white.signed(record_bytes(record)).0,
        ) is None,
        crate::crypto::signature_fault(
            black.public().0,
            record_bytes(record),
            black.signed(record_bytes(record)).0,
        ) is None,
    ensures
        cert_fault(
            (Certified {
                record,
                white_signature: white.signed(record_bytes(record)),
                black_signature: black.signed(record_bytes(record)),
            }),
        ) is None,
{
}

/// A certificate that holds is of a game that was won, lost or drawn, by moves
/// that can be made, and its result is the board's wherever the board has one.
pub proof fn law_certificates_tell_the_board(c: Certified)
    requires
        cert_fault(c) is None,
    ensures
        white_score(c.record.result) is Some,
        replay_fault(new_line(), c.record.moves) is None,
        over(board_result(line_after(new_line(), c.record.moves).status)) ==> c.record.result
            == board_result(line_after(new_line(), c.record.moves).status),
        told_by_board(c.record.result) ==> c.record.result == board_result(
            line_after(new_line(), c.record.moves).status,
        ),
{
}

/// A game has a record once it is over, and not before.
pub proof fn law_games_that_are_over_have_a_record(
    g: GameView,
    game_id: GameId,
    finished_at: i64,
    white_rating: i32,
    black_rating: i32,
)
    ensures
        record_of(g, game_id, finished_at, white_rating, black_rating) is Some <==> over(
            result_of(g),
        ),
{
    crate::game::outcomes::law_a_game_takes_two(g);
}

/// In the record of a game the name beside each key is the one that its owner
/// goes by in that game, whichever side they had: the creator's beside the
/// creator's key, and beside the other key the name that came with the offer.
pub proof fn law_records_put_names_beside_their_keys(
    g: GameView,
    game_id: GameId,
    finished_at: i64,
    white_rating: i32,
    black_rating: i32,
)
    requires
        record_of(g, game_id, finished_at, white_rating, black_rating) is Some,
        g.setup->0.creator != g.slot.seated->0.join.player,
    ensures
        ({
            let d = record_of(g, game_id, finished_at, white_rating, black_rating)->0;
            let (s, a) = (g.setup->0, g.slot.seated->0);
            &&& d.white == s.creator ==> d.white_nickname == s.setup.creator_nickname@ && d.black
                == a.join.player && d.black_nickname == a.join.nickname@
            &&& d.black == s.creator ==> d.black_nickname == s.setup.creator_nickname@ && d.white
                == a.join.player && d.white_nickname == a.join.nickname@
            &&& d.white == s.creator <==> s.setup.creator_plays == Color::White
            &&& d.black == s.creator <==> s.setup.creator_plays == Color::Black
        }),
{
}

/// The record of a game tells its result, its moves and its terms, and that it
/// began once both players were there. The ratings are those of the sides they
/// were given for.
pub proof fn law_records_tell_the_game(
    g: GameView,
    game_id: GameId,
    finished_at: i64,
    white_rating: i32,
    black_rating: i32,
)
    requires
        record_of(g, game_id, finished_at, white_rating, black_rating) is Some,
    ensures
        ({
            let d = record_of(g, game_id, finished_at, white_rating, black_rating)->0;
            &&& d.game_id == game_id
            &&& d.result == result_of(g)
            &&& d.moves == played(g)
            &&& d.time_control == g.setup->0.setup.time_control
            &&& d.started_at >= g.setup->0.setup.created_at
            &&& d.started_at >= g.slot.seated->0.join.joined_at
            &&& d.started_at == g.setup->0.setup.created_at || d.started_at
                == g.slot.seated->0.join.joined_at
            &&& d.finished_at == finished_at
            &&& d.white_rating_before == white_rating
            &&& d.black_rating_before == black_rating
        }),
{
}

/// Whoever the result names as the winner scored the game, and the other lost
/// it; in a draw both scored half. Each met an opponent of the other's rating.
pub proof fn law_players_score_what_their_side_did(c: Certified)
    requires
        id_of(c.record.white) != id_of(c.record.black),
    ensures
        ({
            let (w, b) = (id_of(c.record.white), id_of(c.record.black));
            &&& c.record.result is WhiteWins ==> player_score(c, w) == Some(Score::Win)
                && player_score(c, b) == Some(Score::Loss)
            &&& c.record.result is BlackWins ==> player_score(c, b) == Some(Score::Win)
                && player_score(c, w) == Some(Score::Loss)
            &&& c.record.result is Draw ==> player_score(c, w) == Some(Score::Draw)
                && player_score(c, b) == Some(Score::Draw)
            &&& !over(c.record.result) ==> player_score(c, w) is None && player_score(c, b) is None
            &&& color_for(c, w) == Some(Color::White)
            &&& color_for(c, b) == Some(Color::Black)
            &&& opponent_rating(c, w) == Some(c.record.black_rating_before)
            &&& opponent_rating(c, b) == Some(c.record.white_rating_before)
        }),
{
}

/// Somebody who did not play has no side, no score and no opponent.
pub proof fn law_strangers_scored_nothing(c: Certified, player: PlayerId)
    requires
        player != id_of(c.record.white),
        player != id_of(c.record.black),
    ensures
        color_for(c, player) is None,
        player_score(c, player) is None,
        opponent_rating(c, player) is None,
{
}

/// The terms of a record are sound exactly where two different players finished
/// a game of no more than 1024 plies whose name took work, from one time to a
/// later one before the year 2100, under names and ratings that fit.
pub proof fn law_sound_terms(d: GameRecord)
    ensures
        terms_fault(d) is None <==> {
            &&& d.white != d.black
            &&& over(d.result)
            &&& d.moves.len() <= 1024
            &&& zero_bits(d.game_id.0@) >= 16
            &&& 0 < d.started_at <= d.finished_at <= 4_102_444_800_000
            &&& encode_utf8(d.white_nickname).len() as usize <= 32
            &&& encode_utf8(d.black_nickname).len() as usize <= 32
            &&& 100 <= d.white_rating_before <= 4000
            &&& 100 <= d.black_rating_before <= 4000
            &&& 10 <= d.time_control.initial_secs <= 86_400
            &&& d.time_control.increment_secs <= 300
        },
{
}

/// A record is sound on the board exactly where its moves can be made, and its
/// result is the board's, unless the board has none and the result is one that
/// comes about off it.
pub proof fn law_sound_positions(d: GameRecord)
    ensures
        position_fault(d) is None <==> {
            let shown = board_result(line_after(new_line(), d.moves).status);
            &&& replay_fault(new_line(), d.moves) is None
            &&& d.result == shown || (shown == GameResult::InProgress && (d.result
                == GameResult::InProgress || d.result == GameResult::AwaitingOpponent || d.result
                == GameResult::Draw(DrawReason::Agreement) || d.result == GameResult::WhiteWins(
                WinReason::Resignation,
            ) || d.result == GameResult::BlackWins(WinReason::Resignation) || d.result
                == GameResult::WhiteWins(WinReason::Timeout) || d.result
                == GameResult::BlackWins(WinReason::Timeout)))
        },
{
}

/// A certificate holds exactly where its terms are sound, both players signed
/// the whole of its record, and the board bears it out.
pub proof fn law_certificates_need_both_players(c: Certified)
    ensures
        cert_fault(c) is None <==> {
            let bytes = record_bytes(c.record);
            &&& terms_fault(c.record) is None
            &&& position_fault(c.record) is None
            &&& crate::crypto::signature_fault(
                c.record.white.0,
                bytes,
                c.white_signature.0,
            ) is None
            &&& crate::crypto::signature_fault(
                c.record.black.0,
                bytes,
                c.black_signature.0,
            ) is None
        },
{
}

/// In game notation a record has each side's own name and rating, and the terms
/// that it was played under.
pub proof fn law_notation_has_each_sides_own_tags(d: GameRecord, date: Seq<char>)
    ensures
        ({
            let tags = record_tags(d, date);
            &&& tags.len() == 8
            &&& tags.contains(("White"@, d.white_nickname))
            &&& tags.contains(("Black"@, d.black_nickname))
            &&& tags.contains(("WhiteElo"@, signed_digits(d.white_rating_before as int)))
            &&& tags.contains(("BlackElo"@, signed_digits(d.black_rating_before as int)))
            &&& tags.contains(("Date"@, date))
            &&& tags.contains(("TimeControl"@, time_label(d.time_control)))
            &&& tags.contains(("Event"@, "FreeChess"@))
            &&& tags.contains(("Site"@, "Freenet"@))
        }),
{
    let tags = record_tags(d, date);
    assert(tags[0] == ("Event"@, "FreeChess"@));
    assert(tags[1] == ("Site"@, "Freenet"@));
    assert(tags[2] == ("Date"@, date));
    assert(tags[3] == ("White"@, d.white_nickname));
    assert(tags[4] == ("Black"@, d.black_nickname));
    assert(tags[5] == ("WhiteElo"@, signed_digits(d.white_rating_before as int)));
    assert(tags[6] == ("BlackElo"@, signed_digits(d.black_rating_before as int)));
    assert(tags[7] == ("TimeControl"@, time_label(d.time_control)));
}

/// A record is played through as far as it goes: all of its moves where each can
/// be made, and none where one cannot.
pub proof fn law_records_are_played_through_whole(d: GameRecord)
    ensures
        replay_fault(new_line(), d.moves) is None ==> record_moves(d) == d.moves,
        replay_fault(new_line(), d.moves) is Some ==> record_moves(d).len() == 0,
{
}

} // verus!
