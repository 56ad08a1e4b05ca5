//! A whole game: the moves so far, and where they lead.

use super::board::{all_valid, contains_move, start_position, tells, Board, MoveError, MoveOutcome};
use super::listed::law_legal_moves_can_be_played;
use super::rules::{
    apply, captured, fen_text, legal_moves, move_fault, position_key, san, status_of, Position,
};
use super::types::{Color, GameStatus, Move};
use crate::text::{
    chars_of, digits, end_of_text, push_decimal, text_between, trimmed_end,
};
use vstd::prelude::*;
use vstd::string::*;
use vstd::utf8::encode_utf8;

verus! {

/// What a list of strings holds.
pub open spec fn texts(v: Seq<String>) -> Seq<Seq<char>> {
    Seq::new(v.len(), |i: int| v[i]@)
}

/// How often `key` occurs.
pub open spec fn occurrences(keys: Seq<Seq<char>>, key: Seq<char>) -> nat
    decreases keys.len(),
{
    if keys.len() == 0 {
        0
    } else {
        occurrences(keys.drop_last(), key) + (if keys.last() == key {
            1nat
        } else {
            0
        })
    }
}

/// A game in play: the position, the positions that could still recur, and
/// where the game stands.
#[verifier::ext_equal]
pub struct Line {
    pub pos: Position,
    pub seen: Seq<Seq<char>>,
    pub status: GameStatus,
}

pub open spec fn line_start(p: Position) -> Line {
    Line { pos: p, seen: seq![position_key(p)], status: status_of(p, 1) }
}

/// The game from the usual start.
pub open spec fn new_line() -> Line {
    line_start(start_position())
}

/// Why a move cannot be played.
pub open spec fn line_fault(l: Line, mv: Move) -> Option<MoveError> {
    if l.status != GameStatus::InProgress {
        Some(MoveError::GameOver)
    } else {
        move_fault(l.pos, mv)
    }
}

/// The game one move on. A capture, or a move that resets the clock, makes
/// every earlier position unreachable.
pub open spec fn line_next(l: Line, mv: Move) -> Line {
    let pos = apply(l.pos, mv);
    let piece = l.pos.squares[mv.from.0 as int]->0;
    let fresh = captured(l.pos, mv, piece) is Some || pos.halfmove == 0;
    let seen = (if fresh {
        Seq::empty()
    } else {
        l.seen
    }).push(position_key(pos));
    Line { pos, seen, status: status_of(pos, occurrences(seen, position_key(pos)) as int) }
}

pub open spec fn line_after(start: Line, moves: Seq<Move>) -> Line
    decreases moves.len(),
{
    if moves.len() == 0 {
        start
    } else {
        line_next(line_after(start, moves.drop_last()), moves.last())
    }
}

/// The first move of a list that cannot be played, and why.
pub open spec fn replay_fault(start: Line, moves: Seq<Move>) -> Option<(int, MoveError)>
    decreases moves.len(),
{
    if moves.len() == 0 {
        None
    } else {
        match replay_fault(start, moves.drop_last()) {
            Some(fault) => Some(fault),
            None => match line_fault(line_after(start, moves.drop_last()), moves.last()) {
                Some(e) => Some((moves.len() - 1, e)),
                None => None,
            },
        }
    }
}

/// The FEN of every position of a game, the first included.
pub open spec fn fens_of(start: Line, moves: Seq<Move>) -> Seq<Seq<char>> {
    Seq::new(moves.len() + 1, |i: int| fen_text(line_after(start, moves.take(i)).pos))
}

pub open spec fn san_in(l: Line, mv: Move) -> Seq<char> {
    san(l.pos, mv, l.pos.squares[mv.from.0 as int]->0)
}

/// The moves of a game in standard algebraic notation.
pub open spec fn sans_of(start: Line, moves: Seq<Move>) -> Seq<Seq<char>> {
    Seq::new(moves.len(), |i: int| san_in(line_after(start, moves.take(i)), moves[i]))
}

/// Whether outcomes tell what each move of a game did where it was played.
pub open spec fn all_tell(deeds: Seq<MoveOutcome>, start: Line, moves: Seq<Move>) -> bool {
    &&& deeds.len() == moves.len()
    &&& forall|i: int|
        0 <= i < moves.len() ==> tells(
            #[trigger] deeds[i],
            line_after(start, moves.take(i)).pos,
            moves[i],
        )
}

#[derive(Debug, Clone)]
pub struct Game {
    board: Board,
    moves: Vec<Move>,
    outcomes: Vec<MoveOutcome>,
    fens: Vec<String>,
    seen: Vec<String>,
    status: GameStatus,
}

impl Default for Game {
    fn default() -> (r: Self)
        ensures
            r.wf(),
            r.line() == new_line(),
            r.played() == Seq::<Move>::empty(),
            r.deeds() == Seq::<MoveOutcome>::empty(),
            r.positions() == seq![fen_text(start_position())],
    {
        Game::new()
    }
}

impl Game {
    pub closed spec fn wf(&self) -> bool {
        &&& self.board.valid()
        &&& self.fens@.len() == self.moves@.len() + 1
        &&& self.outcomes@.len() == self.moves@.len()
        &&& all_valid(self.moves@)
    }

    /// Where the game has got to.
    pub closed spec fn line(&self) -> Line {
        Line { pos: self.board@, seen: texts(self.seen@), status: self.status }
    }

    /// The moves so far.
    pub closed spec fn played(&self) -> Seq<Move> {
        self.moves@
    }

    /// The FEN of every position so far.
    pub closed spec fn positions(&self) -> Seq<Seq<char>> {
        texts(self.fens@)
    }

    /// What each move so far did.
    pub closed spec fn deeds(&self) -> Seq<MoveOutcome> {
        self.outcomes@
    }

    /// The moves so far in standard algebraic notation.
    pub open spec fn sans(&self) -> Seq<Seq<char>> {
        Seq::new(self.deeds().len(), |i: int| self.deeds()[i].san@)
    }

    pub fn new() -> (r: Game)
        ensures
            r.wf(),
            r.line() == new_line(),
            r.played() == Seq::<Move>::empty(),
            r.deeds() == Seq::<MoveOutcome>::empty(),
            r.positions() == seq![fen_text(start_position())],
    {
        Game::from_board(Board::starting_position())
    }

    pub fn from_board(board: Board) -> (r: Game)
        requires
            board.valid(),
        ensures
            r.wf(),
            r.line() == line_start(board@),
            r.played() == Seq::<Move>::empty(),
            r.deeds() == Seq::<MoveOutcome>::empty(),
            r.positions() == seq![fen_text(board@)],
    {
        let mut seen: Vec<String> = Vec::new();
        seen.push(board.position_key());
        let status = board.status(1);
        let mut fens: Vec<String> = Vec::new();
        fens.push(board.to_fen());
        assert(texts(seen@) =~= seq![position_key(board@)]);
        assert(texts(fens@) =~= seq![fen_text(board@)]);
        Game { board, moves: Vec::new(), outcomes: Vec::new(), fens, seen, status }
    }

    /// Play a list of moves from the start, or tell which one cannot be played.
    pub fn from_moves(moves: &[Move]) -> (r: Result<Game, (usize, MoveError)>)
        requires
            all_valid(moves@),
        ensures
            match r {
                Ok(game) => replay_fault(new_line(), moves@) is None && game.wf() && game.line()
                    == line_after(new_line(), moves@) && game.played() == moves@
                    && game.positions() == fens_of(new_line(), moves@) && game.sans() == sans_of(
                    new_line(),
                    moves@,
                ) && all_tell(game.deeds(), new_line(), moves@),
                Err((i, e)) => replay_fault(new_line(), moves@) == Some((i as int, e)),
            },
    {
        Game::new().play_all(moves)
    }

    /// Play a list of moves from where a game starts.
    fn play_all(self, moves: &[Move]) -> (r: Result<Game, (usize, MoveError)>)
        requires
            all_valid(moves@),
            self.wf(),
            self.played().len() == 0,
            self.deeds().len() == 0,
            self.positions() == seq![fen_text(self.line().pos)],
        ensures
            match r {
                Ok(game) => replay_fault(self.line(), moves@) is None && game.wf() && game.line()
                    == line_after(self.line(), moves@) && game.played() == moves@
                    && game.positions() == fens_of(self.line(), moves@) && game.sans() == sans_of(
                    self.line(),
                    moves@,
                ) && all_tell(game.deeds(), self.line(), moves@),
                Err((i, e)) => replay_fault(self.line(), moves@) == Some((i as int, e)),
            },
    {
        let ghost start = self.line();
        let mut game = self;
        let mut i: usize = 0;
        proof {
            let none = moves@.take(0);
            assert(none =~= Seq::<Move>::empty());
            assert(none.take(0) =~= none);
            assert(game.played() =~= none);
            assert(game.positions() =~= fens_of(start, none));
            assert(game.sans() =~= sans_of(start, none));
        }
        while i < moves.len()
            invariant
                i <= moves@.len(),
                all_valid(moves@),
                start == self.line(),
                game.wf(),
                game.line() == line_after(start, moves@.take(i as int)),
                game.played() == moves@.take(i as int),
                game.positions() == fens_of(start, moves@.take(i as int)),
                game.sans() == sans_of(start, moves@.take(i as int)),
                all_tell(game.deeds(), start, moves@.take(i as int)),
                replay_fault(start, moves@.take(i as int)) is None,
            decreases moves.len() - i,
        {
            let mv = moves[i];
            let ghost done = moves@.take(i as int);
            let ghost next = moves@.take(i + 1);
            assert(next.drop_last() =~= done);
            assert(next =~= done.push(mv));
            let ghost before = game;
            let failed = match game.play(mv) {
                Ok(_) => None,
                Err(e) => Some(e),
            };
            if let Some(e) = failed {
                proof {
                    lemma_replay_fault_stays(start, moves@, i + 1);
                }
                return Err((i, e));
            }
            proof {
                lemma_record_grows(start, done, mv);
                assert(game.sans() =~= before.sans().push(game.deeds().last().san@));
                assert forall|j: int| 0 <= j < next.len() implies tells(
                    #[trigger] game.deeds()[j],
                    line_after(start, next.take(j)).pos,
                    next[j],
                ) by {
                    if j < done.len() {
                        assert(game.deeds()[j] == before.deeds()[j]);
                        assert(next.take(j) =~= done.take(j));
                        assert(next[j] == done[j]);
                    } else {
                        assert(next.take(j) =~= done);
                    }
                }
            }
            i = i + 1;
        }
        assert(moves@.take(moves@.len() as int) =~= moves@);
        Ok(game)
    }

    pub fn play(&mut self, mv: Move) -> (r: Result<&MoveOutcome, MoveError>)
        requires
            mv.valid(),
            old(self).wf(),
        ensures
            final(self).wf(),
            match r {
                Ok(outcome) => line_fault(old(self).line(), mv) is None && tells(
                    *outcome,
                    old(self).line().pos,
                    mv,
                ) && final(self).line() == line_next(old(self).line(), mv) && final(self).played()
                    == old(self).played().push(mv) && final(self).deeds() == old(
                    self,
                ).deeds().push(*outcome) && final(self).positions() == old(self).positions().push(
                    fen_text(apply(old(self).line().pos, mv)),
                ),
                Err(e) => line_fault(old(self).line(), mv) == Some(e) && final(self).line() == old(
                    self,
                ).line() && final(self).played() == old(self).played() && final(self).deeds()
                    == old(self).deeds() && final(self).positions() == old(self).positions(),
            },
    {
        if self.status.is_over() {
            return Err(MoveError::GameOver);
        }
        let outcome = match self.board.make_move(mv) {
            Ok(outcome) => outcome,
            Err(e) => return Err(e),
        };
        if outcome.captured.is_some() || self.board.halfmove_clock == 0 {
            self.seen.clear();
        }
        let key = self.board.position_key();
        let ghost earlier = texts(self.seen@);
        self.seen.push(key);
        assert(texts(self.seen@) =~= earlier.push(position_key(self.board@)));
        assert(earlier =~= (if outcome.captured is Some || self.board@.halfmove == 0 {
            Seq::empty()
        } else {
            texts(old(self).seen@)
        }));
        let repetitions = count_last(&self.seen);
        self.status = self.board.status(repetitions);
        self.moves.push(mv);
        self.outcomes.push(outcome);
        let fen = self.board.to_fen();
        let ghost fens = texts(self.fens@);
        self.fens.push(fen);
        assert(texts(self.fens@) =~= fens.push(fen@));
        assert(self.line() == line_next(old(self).line(), mv));
        let n = self.outcomes.len();
        Ok(&self.outcomes[n - 1])
    }

    pub fn is_legal(&self, mv: Move) -> (r: bool)
        ensures
            r == (self.line().status == GameStatus::InProgress && legal_moves(
                self.line().pos,
            ).contains(mv)),
            self.wf() ==> r == (line_fault(self.line(), mv) is None),
    {
        proof {
            if self.wf() {
                law_legal_moves_can_be_played(self.line(), mv);
            }
        }
        if self.status.is_over() {
            return false;
        }
        let legal = self.board.legal_moves();
        contains_move(&legal, mv)
    }

    pub fn board(&self) -> (r: &Board)
        ensures
            r@ == self.line().pos,
            self.wf() ==> r.valid(),
    {
        &self.board
    }

    pub fn moves(&self) -> (r: &[Move])
        ensures
            r@ == self.played(),
            self.wf() ==> all_valid(r@),
    {
        self.moves.as_slice()
    }

    pub fn outcomes(&self) -> (r: &[MoveOutcome])
        ensures
            r@ == self.deeds(),
    {
        self.outcomes.as_slice()
    }

    pub fn status(&self) -> (r: GameStatus)
        ensures
            r == self.line().status,
    {
        self.status
    }

    pub fn side_to_move(&self) -> (r: Color)
        ensures
            r == self.line().pos.side,
    {
        self.board.side_to_move
    }

    pub fn ply(&self) -> (r: usize)
        ensures
            r == self.played().len(),
    {
        self.moves.len()
    }

    /// The FEN after `ply` moves; past the end, that of the last position.
    pub fn fen_at(&self, ply: usize) -> (r: &str)
        requires
            self.wf(),
        ensures
            r@ == self.positions()[if ply < self.played().len() {
                ply as int
            } else {
                self.played().len() as int
            }],
    {
        let idx: usize = if ply < self.moves.len() {
            ply
        } else {
            self.moves.len()
        };
        self.fens[idx].as_str()
    }

    pub fn current_fen(&self) -> (r: &str)
        requires
            self.wf(),
        ensures
            r@ == self.positions().last(),
            self.positions().len() == self.played().len() + 1,
    {
        let n = self.fens.len();
        self.fens[n - 1].as_str()
    }

    pub fn san_list(&self) -> (r: Vec<String>)
        ensures
            texts(r@) == self.sans(),
    {
        let mut out: Vec<String> = Vec::new();
        let mut i: usize = 0;
        while i < self.outcomes.len()
            invariant
                i <= self.outcomes@.len(),
                out@.len() == i,
                forall|j: int| 0 <= j < i ==> (#[trigger] out@[j])@ == self.outcomes@[j].san@,
            decreases self.outcomes.len() - i,
        {
            out.push(self.outcomes[i].san.clone());
            i = i + 1;
        }
        assert(texts(out@) =~= self.sans());
        out
    }

    pub fn result_token(&self) -> (r: &'static str)
        ensures
            r@ == status_token(self.line().status),
    {
        match self.status {
            GameStatus::Checkmate { winner: Color::White } => "1-0",
            GameStatus::Checkmate { winner: Color::Black } => "0-1",
            GameStatus::Stalemate
            | GameStatus::InsufficientMaterial
            | GameStatus::FiftyMoveRule
            | GameStatus::ThreefoldRepetition => "1/2-1/2",
            GameStatus::InProgress => "*",
        }
    }

    /// The game in portable game notation.
    pub fn to_pgn(&self, tags: &[(&str, String)], result: &str) -> (r: String)
        ensures
            r@ == pgn_text(tag_views(tags@), self.sans(), result@),
    {
        let mut pgn = String::new();
        let mut i: usize = 0;
        while i < tags.len()
            invariant
                i <= tags@.len(),
                pgn@ == tag_lines(tag_views(tags@), i as nat),
            decreases tags.len() - i,
        {
            let ghost before = pgn@;
            pgn.push_str("[");
            pgn.push_str(tags[i].0);
            pgn.push_str(" \"");
            push_escaped(&mut pgn, tags[i].1.as_str());
            pgn.push_str("\"]\n");
            i = i + 1;
        }
        let ghost head = pgn@;
        pgn.push_str("[Result \"");
        pgn.push_str(result);
        pgn.push_str("\"]\n\n");
        let ghost prefix = pgn@;
        let sans = self.san_list();
        let mut line = String::new();
        let mut k: usize = 0;
        assert(prefix + move_lines(self.sans(), 0).0 =~= prefix);
        while k < sans.len()
            invariant
                k <= sans@.len(),
                texts(sans@) == self.sans(),
                pgn@ == prefix + move_lines(self.sans(), k as nat).0,
                line@ == move_lines(self.sans(), k as nat).1,
            decreases sans.len() - k,
        {
            assert(sans@[k as int]@ == self.sans()[k as int]);
            let ghost line0 = line@;
            let ghost pgn0 = pgn@;
            if k % 2 == 0 {
                push_decimal(&mut line, (k / 2) as u128 + 1);
                line.push_str(". ");
            }
            line.push_str(sans[k].as_str());
            line.push(' ');
            let ghost grown = line_with(line0, self.sans()[k as int], k as int);
            assert(line@ =~= grown);
            if line.as_str().len() > 70 {
                push_trimmed(&mut pgn, line.as_str());
                pgn.push('\n');
                line = String::new();
                assert(pgn@ =~= prefix + move_lines(self.sans(), (k + 1) as nat).0);
            }
            k = k + 1;
        }
        line.push_str(result);
        push_trimmed(&mut pgn, line.as_str());
        pgn.push('\n');
        assert(pgn@ =~= pgn_text(tag_views(tags@), self.sans(), result@));
        pgn
    }
}

pub open spec fn status_token(status: GameStatus) -> Seq<char> {
    match status {
        GameStatus::Checkmate { winner: Color::White } => "1-0"@,
        GameStatus::Checkmate { winner: Color::Black } => "0-1"@,
        GameStatus::InProgress => "*"@,
        _ => "1/2-1/2"@,
    }
}

/// A list of tags as names and values.
pub open spec fn tag_views(tags: Seq<(&str, String)>) -> Seq<(Seq<char>, Seq<char>)> {
    Seq::new(tags.len(), |i: int| (tags[i].0@, tags[i].1@))
}

/// A character as a quoted PGN value holds it.
pub open spec fn escaped_char(c: char) -> Seq<char> {
    if c == '\\' {
        seq!['\\', '\\']
    } else if c == '"' {
        seq!['\\', '"']
    } else {
        seq![c]
    }
}

pub open spec fn escaped(s: Seq<char>) -> Seq<char>
    decreases s.len(),
{
    if s.len() == 0 {
        Seq::empty()
    } else {
        escaped(s.drop_last()) + escaped_char(s.last())
    }
}

/// The first `n` tag lines.
pub open spec fn tag_lines(tags: Seq<(Seq<char>, Seq<char>)>, n: nat) -> Seq<char>
    decreases n,
{
    if n == 0 {
        Seq::empty()
    } else {
        tag_lines(tags, (n - 1) as nat) + "["@ + tags[n - 1].0 + " \""@ + escaped(tags[n - 1].1)
            + "\"]\n"@
    }
}

/// A line of moves with one more move on it, numbered where White moves.
pub open spec fn line_with(line: Seq<char>, san: Seq<char>, i: int) -> Seq<char> {
    line + (if i % 2 == 0 {
        digits((i / 2 + 1) as nat) + ". "@
    } else {
        Seq::empty()
    }) + san + seq![' ']
}

/// The first `n` moves as finished lines, and the line that is being filled. A
/// line is finished once it is longer than 70 bytes.
pub open spec fn move_lines(sans: Seq<Seq<char>>, n: nat) -> (Seq<char>, Seq<char>)
    decreases n,
{
    if n == 0 {
        (Seq::empty(), Seq::empty())
    } else {
        let (done, line) = move_lines(sans, (n - 1) as nat);
        let grown = line_with(line, sans[n - 1], n - 1);
        if encode_utf8(grown).len() as usize > 70 {
            (done + trimmed_end(grown) + seq!['\n'], Seq::empty())
        } else {
            (done, grown)
        }
    }
}

/// A game in portable game notation.
pub open spec fn pgn_text(
    tags: Seq<(Seq<char>, Seq<char>)>,
    sans: Seq<Seq<char>>,
    result: Seq<char>,
) -> Seq<char> {
    let (done, line) = move_lines(sans, sans.len());
    tag_lines(tags, tags.len()) + "[Result \""@ + result + "\"]\n\n"@ + done + trimmed_end(
        line + result,
    ) + seq!['\n']
}

/// Append a value with its quotes and backslashes escaped.
fn push_escaped(out: &mut String, value: &str)
    ensures
        final(out)@ == old(out)@ + escaped(value@),
{
    let cs = chars_of(value);
    let ghost start = out@;
    let mut i: usize = 0;
    assert(start + escaped(cs@.take(0)) =~= start);
    while i < cs.len()
        invariant
            i <= cs@.len(),
            out@ == start + escaped(cs@.take(i as int)),
        decreases cs.len() - i,
    {
        let c = cs[i];
        let ghost next = cs@.take(i + 1);
        assert(next.drop_last() =~= cs@.take(i as int));
        if c == '\\' {
            out.push('\\');
            out.push('\\');
        } else if c == '"' {
            out.push('\\');
            out.push('"');
        } else {
            out.push(c);
        }
        assert(out@ =~= start + escaped(next));
        i = i + 1;
    }
    assert(cs@.take(cs@.len() as int) =~= cs@);
}

/// Append a text without the white space at its end.
fn push_trimmed(out: &mut String, s: &str)
    ensures
        final(out)@ == old(out)@ + trimmed_end(s@),
{
    let cs = chars_of(s);
    let end = end_of_text(&cs, 0);
    assert(cs@.subrange(0, cs@.len() as int) =~= cs@);
    let text = text_between(&cs, 0, end);
    out.push_str(text.as_str());
}

/// How often the last key of a list occurs in it, up to three.
fn count_last(keys: &Vec<String>) -> (r: u32)
    requires
        keys@.len() > 0,
    ensures
        ({
            let n = occurrences(texts(keys@), texts(keys@).last());
            r == n || (r == 3 && n >= 3)
        }),
{
    let last = keys.len() - 1;
    let ghost all = texts(keys@);
    let mut count: u32 = 0;
    let mut i: usize = 0;
    while i < keys.len()
        invariant
            i <= keys@.len(),
            last == keys@.len() - 1,
            all == texts(keys@),
            count <= 3,
            count == occurrences(all.take(i as int), all.last()) || (count == 3 && occurrences(
                all.take(i as int),
                all.last(),
            ) >= 3),
        decreases keys.len() - i,
    {
        let ghost next = all.take(i + 1);
        assert(next.drop_last() =~= all.take(i as int));
        assert(next.last() == keys@[i as int]@);
        if keys[i] == keys[last] && count < 3 {
            count = count + 1;
        }
        i = i + 1;
    }
    assert(all.take(all.len() as int) =~= all);
    count
}

/// The record of a game with one more move.
proof fn lemma_record_grows(start: Line, done: Seq<Move>, mv: Move)
    ensures
        fens_of(start, done.push(mv)) == fens_of(start, done).push(
            fen_text(line_after(start, done.push(mv)).pos),
        ),
        sans_of(start, done.push(mv)) == sans_of(start, done).push(
            san_in(line_after(start, done), mv),
        ),
{
    let next = done.push(mv);
    assert forall|k: int| 0 <= k <= done.len() implies next.take(k) == #[trigger] done.take(k) by {
        assert(next.take(k) =~= done.take(k));
    }
    assert(done.take(done.len() as int) =~= done);
    assert(next.take(next.len() as int) =~= next);
    assert(fens_of(start, next) =~= fens_of(start, done).push(
        fen_text(line_after(start, next).pos),
    ));
    assert(sans_of(start, next) =~= sans_of(start, done).push(
        san_in(line_after(start, done), mv),
    ));
}

/// What is wrong with the first moves is what is wrong with the whole list.
pub proof fn lemma_replay_fault_stays(start: Line, moves: Seq<Move>, n: int)
    requires
        0 <= n <= moves.len(),
        replay_fault(start, moves.take(n)) is Some,
    ensures
        replay_fault(start, moves) == replay_fault(start, moves.take(n)),
    decreases moves.len(),
{
    if n == moves.len() {
        assert(moves.take(n) =~= moves);
    } else {
        assert(moves.drop_last().take(n) =~= moves.take(n));
        lemma_replay_fault_stays(start, moves.drop_last(), n);
    }
}

} // verus!
