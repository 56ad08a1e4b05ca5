//! One game between two players, as a record that peers replicate.

pub mod admission;
pub mod certification;
pub mod claims;
pub mod clocks;
pub mod conclusion;
pub mod convergence;
pub mod copies;
pub mod merging;
pub mod moves;
pub mod opponent;
pub mod outcomes;
pub mod replica;
pub mod seating;
pub mod setup;
pub mod timing;
pub mod upkeep;
pub mod validity;

use crate::bytes::push_all;
use crate::chess::game::{
    all_tell, fens_of, line_after, new_line, replay_fault, sans_of, Game, Line,
};
use crate::chess::rules::fen_text;
use crate::chess::types::{Color, GameStatus, Move};
use crate::crypto::VerifyingKey;
use crate::elo::Score;
use crate::identity::{id_of, GameId, PlayerId};
use certification::{CertificationV1, Proposed};
use clocks::{absence_forfeit_ms, absence_ms, attested, ClockAttestation, ClocksV1};
use conclusion::{concluded, decides, ConclusionV1, SignedConclusion};
use moves::{key_at, moves_of, moves_valid, run, stamps_of, AuthorizedMove, MovesV1};
use opponent::{OpponentSlotV1, SlotView};
use setup::{GameSetupV1, SignedGameSetup};
use vstd::prelude::*;
use vstd::string::*;
use vstd::utf8::encode_utf8;

verus! {

/// What every signed message starts with. With the purpose after it, a
/// signature made for one message cannot be passed off as another's.
pub const SIG_DOMAIN: &'static str = "freechess:v1:";

/// The first bytes of a message of one purpose.
pub open spec fn domain(tag: Seq<char>) -> Seq<u8> {
    encode_utf8(SIG_DOMAIN@) + encode_utf8(tag)
}

/// The first bytes of a message of one purpose.
pub fn domain_bytes(tag: &str) -> (r: Vec<u8>)
    ensures
        r@ == domain(tag@),
{
    let mut out: Vec<u8> = Vec::new();
    push_all(&mut out, SIG_DOMAIN.as_bytes());
    push_all(&mut out, tag.as_bytes());
    assert(out@ =~= domain(tag@));
    out
}

/// A text within a message: its length, then its bytes.
pub open spec fn text_field(s: Seq<char>) -> Seq<u8> {
    crate::bytes::le32((encode_utf8(s).len() as usize) as u32) + encode_utf8(s)
}

/// Append a text with its length before it.
pub fn push_text(out: &mut Vec<u8>, s: &str)
    ensures
        final(out)@ == old(out)@ + text_field(s@),
{
    let ghost start = out@;
    crate::bytes::push_u32(out, s.len() as u32);
    push_all(out, s.as_bytes());
    assert(out@ =~= start + text_field(s@));
}

/// Where a signature stands among others: their bytes in order.
pub open spec fn sig_rank(s: crate::crypto::Signature) -> nat {
    crate::bytes::be_value(s.0@)
}

/// Whether one signature's bytes come before another's.
pub fn sig_less(a: &crate::crypto::Signature, b: &crate::crypto::Signature) -> (r: bool)
    ensures
        r == (sig_rank(*a) < sig_rank(*b)),
{
    crate::bytes::bytes_less(&a.0, &b.0)
}

/// What is fixed when a game is created.
#[derive(Debug, Clone, Copy, PartialEq, Eq)]
pub struct ChessGameParametersV1 {
    /// The player who created the game.
    pub creator: VerifyingKey,
    /// The game's name, which took its creator work.
    pub game_id: GameId,
}

impl ChessGameParametersV1 {
    pub fn creator_id(&self) -> (r: PlayerId)
        ensures
            r == id_of(self.creator),
    {
        PlayerId::from(&self.creator)
    }
}

/// A game as peers hold it.
#[derive(Debug, Clone, PartialEq, Eq)]
pub struct ChessGameStateV1 {
    /// The terms, signed by the creator.
    pub setup: GameSetupV1,
    /// The second player's seat.
    pub opponent: OpponentSlotV1,
    pub moves: MovesV1,
    pub clocks: ClocksV1,
    /// The claims that the game is over.
    pub conclusion: ConclusionV1,
    pub certification: CertificationV1,
}

/// What a game's record holds.
#[verifier::ext_equal]
pub struct GameView {
    pub setup: Option<SignedGameSetup>,
    pub slot: SlotView,
    pub moves: Map<u32, AuthorizedMove>,
    pub clocks: Map<PlayerId, ClockAttestation>,
    pub claims: Seq<SignedConclusion>,
    pub proposals: Map<[u8; 32], Proposed>,
}

impl View for ChessGameStateV1 {
    type V = GameView;

    open spec fn view(&self) -> GameView {
        GameView {
            setup: self.setup.0,
            slot: self.opponent@,
            moves: self.moves@,
            clocks: self.clocks@,
            claims: self.conclusion@,
            proposals: self.certification@,
        }
    }
}

impl GameView {
    /// Moves name squares of the board.
    pub open spec fn wf(self) -> bool {
        moves_valid(self.moves)
    }
}

/// How a game finished, on the board or off it.
#[derive(Debug, Clone, Copy, PartialEq, Eq, Structural)]
pub enum GameResult {
    InProgress,
    /// Nobody has the second seat yet.
    AwaitingOpponent,
    WhiteWins(WinReason),
    BlackWins(WinReason),
    Draw(DrawReason),
}

#[derive(Debug, Clone, Copy, PartialEq, Eq, Structural)]
pub enum WinReason {
    Checkmate,
    Resignation,
    Timeout,
}

#[derive(Debug, Clone, Copy, PartialEq, Eq, Structural)]
pub enum DrawReason {
    Stalemate,
    Agreement,
    InsufficientMaterial,
    FiftyMoveRule,
    ThreefoldRepetition,
}

/// Whether a result is final.
pub open spec fn over(result: GameResult) -> bool {
    result != GameResult::InProgress && result != GameResult::AwaitingOpponent
}

/// A result as game notation has it.
pub open spec fn result_token(result: GameResult) -> Seq<char> {
    match result {
        GameResult::WhiteWins(_) => "1-0"@,
        GameResult::BlackWins(_) => "0-1"@,
        GameResult::Draw(_) => "1/2-1/2"@,
        _ => "*"@,
    }
}

/// What White scored.
pub open spec fn white_score(result: GameResult) -> Option<Score> {
    match result {
        GameResult::WhiteWins(_) => Some(Score::Win),
        GameResult::BlackWins(_) => Some(Score::Loss),
        GameResult::Draw(_) => Some(Score::Draw),
        _ => None,
    }
}

impl GameResult {
    pub fn is_over(self) -> (r: bool)
        ensures
            r == over(self),
    {
        match self {
            GameResult::InProgress | GameResult::AwaitingOpponent => false,
            _ => true,
        }
    }

    pub fn pgn_token(self) -> (r: &'static str)
        ensures
            r@ == result_token(self),
    {
        match self {
            GameResult::WhiteWins(_) => "1-0",
            GameResult::BlackWins(_) => "0-1",
            GameResult::Draw(_) => "1/2-1/2",
            GameResult::InProgress | GameResult::AwaitingOpponent => "*",
        }
    }

    pub fn score_for_white(self) -> (r: Option<Score>)
        ensures
            r == white_score(self),
    {
        match self {
            GameResult::WhiteWins(_) => Some(Score::Win),
            GameResult::BlackWins(_) => Some(Score::Loss),
            GameResult::Draw(_) => Some(Score::Draw),
            GameResult::InProgress | GameResult::AwaitingOpponent => None,
        }
    }
}

/// The keys of White and of Black, once both are known.
pub open spec fn keys_of(g: GameView) -> Option<(VerifyingKey, VerifyingKey)> {
    match (g.setup, g.slot.seated) {
        (Some(s), Some(a)) => Some(
            match s.setup.creator_plays {
                Color::White => (s.creator, a.join.player),
                Color::Black => (a.join.player, s.creator),
            },
        ),
        _ => None,
    }
}

/// The side that a key plays.
pub open spec fn color_in(
    keys: Option<(VerifyingKey, VerifyingKey)>,
    key: VerifyingKey,
) -> Option<Color> {
    match keys {
        None => None,
        Some((white, black)) => if key == white {
            Some(Color::White)
        } else if key == black {
            Some(Color::Black)
        } else {
            None
        },
    }
}

/// The moves that a game has had.
pub open spec fn played(g: GameView) -> Seq<Move> {
    moves_of(run(g.moves))
}

/// The times of the moves that a game has had.
pub open spec fn stamps(g: GameView) -> Seq<i64> {
    stamps_of(run(g.moves))
}

/// The moves that are played through: none where one of them cannot be made.
pub open spec fn playable(g: GameView) -> Seq<Move> {
    if replay_fault(new_line(), played(g)) is None {
        played(g)
    } else {
        Seq::empty()
    }
}

/// Where a game has got to on the board.
pub open spec fn line_of(g: GameView) -> Line {
    line_after(new_line(), playable(g))
}

/// The side that moves at a ply.
pub open spec fn side_at(ply: int) -> Color {
    if ply % 2 == 0 {
        Color::White
    } else {
        Color::Black
    }
}

/// When the clocks started: once both the terms and the second player were
/// there.
pub open spec fn start_time(g: GameView) -> Option<i64> {
    match (g.slot.seated, g.setup) {
        (Some(a), Some(s)) => Some(
            if a.join.joined_at < s.setup.created_at {
                s.setup.created_at
            } else {
                a.join.joined_at
            },
        ),
        _ => None,
    }
}

pub open spec fn at_least(n: int, low: int) -> int {
    if n < low {
        low
    } else {
        n
    }
}

/// A time held to what the clock can tell.
pub open spec fn to_clock(n: int) -> int {
    if n < i64::MIN {
        i64::MIN as int
    } else if n > i64::MAX {
        i64::MAX as int
    } else {
        n
    }
}

/// The time that a side spent on the first `n` plies. Each ply takes what has
/// passed since the one before it.
pub open spec fn spent(stamps: Seq<i64>, start: i64, color: Color, n: nat) -> int
    decreases n,
{
    if n == 0 {
        0
    } else {
        let since = if n == 1 {
            start
        } else {
            stamps[n - 2]
        };
        spent(stamps, start, color, (n - 1) as nat) + (if side_at(n - 1) == color {
            at_least(stamps[n - 1] - since, 0)
        } else {
            0
        })
    }
}

/// The time that a side has spent on its moves.
pub open spec fn time_used(g: GameView, color: Color) -> int {
    match start_time(g) {
        Some(start) => spent(stamps(g), start, color, stamps(g).len()),
        None => 0,
    }
}

/// How many moves a side has made.
pub open spec fn moves_made(g: GameView, color: Color) -> int {
    match color {
        Color::White => (played(g).len() as int + 1) / 2,
        Color::Black => played(g).len() as int / 2,
    }
}

/// Since when the side to move has been thinking.
pub open spec fn thinking_since(g: GameView) -> Option<i64> {
    if stamps(g).len() > 0 {
        Some(stamps(g).last())
    } else {
        start_time(g)
    }
}

/// The time that a side has spent on the move it is about to make.
pub open spec fn time_pending(g: GameView, color: Color, now: i64) -> int {
    if line_of(g).status != GameStatus::InProgress || g.slot.seated is None || side_at(
        stamps(g).len() as int,
    ) != color {
        0
    } else {
        match thinking_since(g) {
            Some(since) => at_least(now - since, 0),
            None => 0,
        }
    }
}

/// The time that a side has been given so far.
pub open spec fn time_given(g: GameView, color: Color) -> int {
    match g.setup {
        Some(s) => s.setup.time_control.initial_secs * 1000 + s.setup.time_control.increment_secs
            * 1000 * moves_made(g, color),
        None => 0,
    }
}

/// The time that a side has left.
pub open spec fn time_left(g: GameView, color: Color, now: i64) -> int {
    if g.setup is None {
        0
    } else {
        at_least(time_given(g, color) - (time_used(g, color) + time_pending(g, color, now)), 0)
    }
}

/// When a side that is to move runs out of time.
pub open spec fn flag_fall(g: GameView, color: Color) -> int {
    match thinking_since(g) {
        Some(since) => since + at_least(time_given(g, color) - time_used(g, color), 0),
        None => 0,
    }
}

/// When it can be proved that a side lost on time at a ply: the loser signed
/// for the time at which its flag fell, or fell silent before that.
pub open spec fn provable(g: GameView, loser: Color, at_ply: int) -> Option<int> {
    match keys_of(g) {
        None => None,
        Some((white, black)) => if line_of(g).status != GameStatus::InProgress || stamps(g).len()
            != at_ply || side_at(at_ply) != loser {
            None
        } else {
            let key = match loser {
                Color::White => white,
                Color::Black => black,
            };
            match attested(g.clocks, key) {
                None => None,
                Some(at) => if at >= flag_fall(g, loser) {
                    Some(to_clock(flag_fall(g, loser)))
                } else {
                    Some(to_clock(at + absence_ms(g.setup->0.setup.time_control)))
                },
            }
        },
    }
}

/// The result that a position stands for.
pub open spec fn board_result(status: GameStatus) -> GameResult {
    match status {
        GameStatus::InProgress => GameResult::InProgress,
        GameStatus::Checkmate { winner: Color::White } => GameResult::WhiteWins(
            WinReason::Checkmate,
        ),
        GameStatus::Checkmate { winner: Color::Black } => GameResult::BlackWins(
            WinReason::Checkmate,
        ),
        GameStatus::Stalemate => GameResult::Draw(DrawReason::Stalemate),
        GameStatus::InsufficientMaterial => GameResult::Draw(DrawReason::InsufficientMaterial),
        GameStatus::FiftyMoveRule => GameResult::Draw(DrawReason::FiftyMoveRule),
        GameStatus::ThreefoldRepetition => GameResult::Draw(DrawReason::ThreefoldRepetition),
    }
}

/// The result that a position stands for.
pub fn result_on_board(status: GameStatus) -> (r: GameResult)
    ensures
        r == board_result(status),
{
    match status {
        GameStatus::InProgress => GameResult::InProgress,
        GameStatus::Checkmate { winner: Color::White } => GameResult::WhiteWins(
            WinReason::Checkmate,
        ),
        GameStatus::Checkmate { winner: Color::Black } => GameResult::BlackWins(
            WinReason::Checkmate,
        ),
        GameStatus::Stalemate => GameResult::Draw(DrawReason::Stalemate),
        GameStatus::InsufficientMaterial => GameResult::Draw(DrawReason::InsufficientMaterial),
        GameStatus::FiftyMoveRule => GameResult::Draw(DrawReason::FiftyMoveRule),
        GameStatus::ThreefoldRepetition => GameResult::Draw(DrawReason::ThreefoldRepetition),
    }
}

/// How a game stands: by claim where one decides it, else by the board.
pub open spec fn result_of(g: GameView) -> GameResult {
    if g.setup is None {
        GameResult::InProgress
    } else if g.slot.seated is None {
        GameResult::AwaitingOpponent
    } else {
        match concluded(g) {
            Some(result) => result,
            None => board_result(line_of(g).status),
        }
    }
}

/// What claims there are does not change what they are judged by.
pub proof fn lemma_claims_are_not_evidence(g: GameView, claims: Seq<SignedConclusion>)
    ensures
        forall|c: SignedConclusion| #[trigger]
            decides(c, (GameView { claims, ..g })) == decides(c, g),
{
}

fn later(a: i64, b: i64) -> (r: i64)
    ensures
        r == (if a < b {
            b
        } else {
            a
        }),
{
    if a < b {
        b
    } else {
        a
    }
}

fn positive(n: i128) -> (r: i128)
    ensures
        r == at_least(n as int, 0),
{
    if n < 0 {
        0
    } else {
        n
    }
}

fn clock_time(n: i128) -> (r: i64)
    ensures
        r == to_clock(n as int),
{
    if n < i64::MIN as i128 {
        i64::MIN
    } else if n > i64::MAX as i128 {
        i64::MAX
    } else {
        n as i64
    }
}

fn mover_at(ply: usize) -> (r: Color)
    ensures
        r == side_at(ply as int),
{
    if ply % 2 == 0 {
        Color::White
    } else {
        Color::Black
    }
}

impl ChessGameStateV1 {
    /// The keys of White and of Black, once both are known. Until then nobody
    /// may move.
    pub fn player_keys(&self) -> (r: Option<(VerifyingKey, VerifyingKey)>)
        ensures
            r == keys_of(self@),
    {
        match (&self.setup.0, &self.opponent.seated) {
            (Some(s), Some(a)) => Some(
                match s.setup.creator_plays {
                    Color::White => (s.creator, a.join.player),
                    Color::Black => (a.join.player, s.creator),
                },
            ),
            _ => None,
        }
    }

    /// The key that must sign the move at a ply.
    pub fn key_for_ply(&self, ply: u32) -> (r: Option<VerifyingKey>)
        ensures
            match keys_of(self@) {
                Some(keys) => r == Some(key_at(keys, ply as int)),
                None => r is None,
            },
    {
        match self.player_keys() {
            Some((white, black)) => Some(
                if ply % 2 == 0 {
                    white
                } else {
                    black
                },
            ),
            None => None,
        }
    }

    /// The side that a key plays.
    pub fn color_of(&self, key: &VerifyingKey) -> (r: Option<Color>)
        ensures
            r == color_in(keys_of(self@), *key),
    {
        match self.player_keys() {
            Some((white, black)) => {
                if key.same(&white) {
                    Some(Color::White)
                } else if key.same(&black) {
                    Some(Color::Black)
                } else {
                    None
                }
            },
            None => None,
        }
    }

    fn game_start_time(&self) -> (r: Option<i64>)
        ensures
            r == start_time(self@),
    {
        match (&self.opponent.seated, &self.setup.0) {
            (Some(a), Some(s)) => Some(later(a.join.joined_at, s.setup.created_at)),
            _ => None,
        }
    }

    fn used_ms(&self, color: Color) -> (r: i128)
        ensures
            r == time_used(self@, color),
            0 <= r <= 0x1_0000_0000i128 * 0x1_0000_0000_0000_0000i128,
    {
        let stamps = self.moves.timestamps();
        let start = match self.game_start_time() {
            Some(t) => t,
            None => return 0,
        };
        let n = stamps.len();
        let mut used: i128 = 0;
        let mut i: usize = 0;
        while i < n
            invariant
                i <= n,
                n == stamps@.len(),
                n <= u32::MAX,
                used == spent(stamps@, start, color, i as nat),
                0 <= used <= i * 0x1_0000_0000_0000_0000int,
            decreases n - i,
        {
            let since = if i == 0 {
                start
            } else {
                stamps[i - 1]
            };
            if mover_at(i) == color {
                used = used + positive(stamps[i] as i128 - since as i128);
            }
            i = i + 1;
        }
        used
    }

    /// The milliseconds that a side has spent on its moves.
    pub fn time_used_by(&self, color: Color) -> (r: i64)
        ensures
            r == to_clock(time_used(self@, color)),
    {
        clock_time(self.used_ms(color))
    }

    /// How many moves a side has made.
    pub fn moves_made_by(&self, color: Color) -> (r: u32)
        ensures
            r == moves_made(self@, color),
    {
        let total = self.moves.timestamps().len() as u32;
        match color {
            Color::White => total / 2 + total % 2,
            Color::Black => total / 2,
        }
    }

    /// The moves played through.
    pub fn replay(&self) -> (r: Game)
        requires
            self@.wf(),
        ensures
            r.wf(),
            r.line() == line_of(self@),
            r.played() == playable(self@),
            r.positions() == fens_of(new_line(), playable(self@)),
            r.sans() == sans_of(new_line(), playable(self@)),
            all_tell(r.deeds(), new_line(), playable(self@)),
    {
        let moves = self.moves.move_list();
        match Game::from_moves(moves.as_slice()) {
            Ok(game) => game,
            Err(_) => {
                let game = Game::new();
                proof {
                    let none = Seq::<Move>::empty();
                    assert(none.take(0) =~= none);
                    assert(game.positions() =~= fens_of(new_line(), none));
                    assert(game.sans() =~= sans_of(new_line(), none));
                }
                game
            },
        }
    }

    fn thinking_from(&self) -> (r: Option<i64>)
        ensures
            r == thinking_since(self@),
    {
        let stamps = self.moves.timestamps();
        let n = stamps.len();
        if n > 0 {
            Some(stamps[n - 1])
        } else {
            self.game_start_time()
        }
    }

    fn pending_ms(&self, color: Color, now: i64) -> (r: i128)
        requires
            self@.wf(),
        ensures
            r == time_pending(self@, color, now),
            0 <= r <= 0x1_0000_0000_0000_0000i128,
    {
        if self.replay().status().is_over() || self.opponent.seated.is_none() {
            return 0;
        }
        let n = self.moves.timestamps().len();
        if mover_at(n) != color {
            return 0;
        }
        match self.thinking_from() {
            Some(since) => positive(now as i128 - since as i128),
            None => 0,
        }
    }

    /// The milliseconds that a side has spent on the move it is about to make.
    /// Whether the game runs is read off the board alone.
    pub fn pending_time_for(&self, color: Color, now: i64) -> (r: i64)
        requires
            self@.wf(),
        ensures
            r == to_clock(time_pending(self@, color, now)),
    {
        clock_time(self.pending_ms(color, now))
    }

    fn given_ms(&self, color: Color) -> (r: i128)
        ensures
            r == time_given(self@, color),
            0 <= r <= 0x1_0000_0000i128 * 0x1_0000_0000i128 * 2000,
    {
        match &self.setup.0 {
            Some(s) => {
                let made = self.moves_made_by(color) as i128;
                let initial = s.setup.time_control.initial_secs as i128;
                let increment = s.setup.time_control.increment_secs as i128;
                assert(0 <= increment * 1000 * made <= 0x1_0000_0000 * 0x1_0000_0000 * 1000)
                    by (nonlinear_arith)
                    requires
                        0 <= increment <= 0xffff_ffff,
                        0 <= made <= 0xffff_ffff,
                ;
                initial * 1000 + increment * 1000 * made
            },
            None => 0,
        }
    }

    /// The milliseconds that a side has left.
    pub fn time_remaining(&self, color: Color, now: i64) -> (r: i64)
        requires
            self@.wf(),
        ensures
            r == to_clock(time_left(self@, color, now)),
    {
        if self.setup.0.is_none() {
            return 0;
        }
        let left = self.given_ms(color) - (self.used_ms(color) + self.pending_ms(color, now));
        clock_time(positive(left))
    }

    /// When it can be proved that a side lost on time at a ply.
    pub fn timeout_provable_at(&self, loser: Color, at_ply: u32) -> (r: Option<i64>)
        requires
            self@.wf(),
        ensures
            match provable(self@, loser, at_ply as int) {
                Some(t) => r is Some && r->0 == t,
                None => r is None,
            },
    {
        let (white, black) = match self.player_keys() {
            Some(keys) => keys,
            None => return None,
        };
        if self.replay().status().is_over() {
            return None;
        }
        let n = self.moves.timestamps().len();
        if n as u64 != at_ply as u64 || mover_at(n) != loser {
            return None;
        }
        let key = match loser {
            Color::White => white,
            Color::Black => black,
        };
        let at = match self.clocks.attested_at(&key) {
            Some(at) => at,
            None => return None,
        };
        let left = positive(self.given_ms(loser) - self.used_ms(loser));
        let fall: i128 = match self.thinking_from() {
            Some(since) => since as i128 + left,
            None => 0,
        };
        if at as i128 >= fall {
            return Some(clock_time(fall));
        }
        match &self.setup.0 {
            Some(s) => Some(
                clock_time(at as i128 + absence_forfeit_ms(&s.setup.time_control) as i128),
            ),
            None => None,
        }
    }

    /// How the game stands: by claim where one decides it, else by the board.
    pub fn result(&self) -> (r: GameResult)
        requires
            self@.wf(),
        ensures
            r == result_of(self@),
    {
        if self.setup.0.is_none() {
            return GameResult::InProgress;
        }
        if self.opponent.seated.is_none() {
            return GameResult::AwaitingOpponent;
        }
        assert((GameView { claims: self.conclusion@, ..self@ }) =~= self@);
        match self.conclusion.result_with(self) {
            Some(result) => result,
            None => result_on_board(self.replay().status()),
        }
    }

    /// Whether the second seat can still be taken.
    pub fn is_open(&self) -> (r: bool)
        ensures
            r == (self@.setup is Some && self@.slot.seated is None),
            r == (result_of(self@) == GameResult::AwaitingOpponent),
    {
        self.setup.0.is_some() && self.opponent.seated.is_none()
    }

    /// The position in Forsyth-Edwards notation.
    pub fn current_fen(&self) -> (r: String)
        requires
            self@.wf(),
        ensures
            r@ == fen_text(line_of(self@).pos),
    {
        let game = self.replay();
        let fen = game.current_fen().to_string();
        proof {
            let all = playable(self@);
            assert(all.take(all.len() as int) =~= all);
        }
        fen
    }
}

} // verus!
