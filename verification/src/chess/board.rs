//! The board: a position that can be asked and moved on.

use super::rules::{
    apply, attacked, can_castle_kingside, captured, castling_moves, disambiguation,
    en_passant_matters, first_on_ray, free_and_safe, holds, home_square, in_check,
    insufficient_material, keep_from, keep_safe, keeps_king_safe, key_char, king_from, king_step,
    knight_step, legal_moves, mates_alone, minors, move_fault, moves_from, own_piece,
    pawn_advances, pawn_arrivals, pawn_captures, pawn_moves, position_key, pseudo_moves, put,
    ray_attack, ray_moves, rights_after, rival, rook_hop, san, san_body, side_char, slide_moves,
    slide_step, squares_after, status_of, step_moves, takes_en_passant, Position,
};
use super::types::{
    file_letter, rank_digit, CastlingRights, Color, GameStatus, Move, Piece, PieceKind, Square,
};
use vstd::prelude::*;
use vstd::string::*;

verus! {

/// Why a move cannot be made.
#[derive(Debug, Clone, Copy, PartialEq, Eq, Structural)]
pub enum MoveError {
    EmptySquare,
    WrongColor,
    Illegal,
    BadPromotion,
    GameOver,
}

/// What a player is told about a move that cannot be made.
pub open spec fn move_error_text(e: MoveError) -> Seq<char> {
    match e {
        MoveError::EmptySquare => "no piece on the origin square"@,
        MoveError::WrongColor => "that piece belongs to the opponent"@,
        MoveError::Illegal => "illegal move"@,
        MoveError::BadPromotion => "invalid promotion"@,
        MoveError::GameOver => "the game is already over"@,
    }
}

impl MoveError {
    pub fn message(self) -> (r: String)
        ensures
            r@ == move_error_text(self),
    {
        let s = match self {
            MoveError::EmptySquare => "no piece on the origin square",
            MoveError::WrongColor => "that piece belongs to the opponent",
            MoveError::Illegal => "illegal move",
            MoveError::BadPromotion => "invalid promotion",
            MoveError::GameOver => "the game is already over",
        };
        s.to_string()
    }
}

/// What a move did.
#[derive(Debug, Clone, PartialEq, Eq)]
pub struct MoveOutcome {
    pub mv: Move,
    pub piece: Piece,
    pub captured: Option<Piece>,
    pub is_castle_kingside: bool,
    pub is_castle_queenside: bool,
    pub is_en_passant: bool,
    pub gives_check: bool,
    pub gives_checkmate: bool,
    pub san: String,
}

/// Whether an outcome tells what a legal move did to a position.
pub open spec fn tells(o: MoveOutcome, p: Position, mv: Move) -> bool {
    let next = apply(p, mv);
    let piece = p.squares[mv.from.0 as int]->0;
    let delta = mv.to.on_file() - mv.from.on_file();
    &&& o.mv == mv
    &&& o.piece == piece
    &&& o.captured == captured(p, mv, piece)
    &&& o.is_castle_kingside == (piece.kind == PieceKind::King && delta == 2)
    &&& o.is_castle_queenside == (piece.kind == PieceKind::King && delta == -2)
    &&& o.is_en_passant == takes_en_passant(p, mv, piece)
    &&& o.gives_check == in_check(next.squares, next.side)
    &&& o.gives_checkmate == (in_check(next.squares, next.side) && legal_moves(next).len() == 0)
    &&& o.san@ == san(p, mv, piece)
}

pub open spec fn all_valid(moves: Seq<Move>) -> bool {
    forall|i: int| 0 <= i < moves.len() ==> (#[trigger] moves[i]).valid()
}

fn knight_jump(i: usize) -> (d: (i8, i8))
    requires
        i < 8,
    ensures
        d.0 == knight_step(i as int).0,
        d.1 == knight_step(i as int).1,
        -2 <= d.0 <= 2,
        -2 <= d.1 <= 2,
{
    match i {
        0 => (1, 2),
        1 => (2, 1),
        2 => (2, -1),
        3 => (1, -2),
        4 => (-1, -2),
        5 => (-2, -1),
        6 => (-2, 1),
        _ => (-1, 2),
    }
}

fn king_walk(i: usize) -> (d: (i8, i8))
    requires
        i < 8,
    ensures
        d.0 == king_step(i as int).0,
        d.1 == king_step(i as int).1,
        -1 <= d.0 <= 1,
        -1 <= d.1 <= 1,
{
    match i {
        0 => (0, 1),
        1 => (1, 1),
        2 => (1, 0),
        3 => (1, -1),
        4 => (0, -1),
        5 => (-1, -1),
        6 => (-1, 0),
        _ => (-1, 1),
    }
}

fn slide_way(diagonal: bool, i: usize) -> (d: (i8, i8))
    requires
        i < 4,
    ensures
        (d.0 as int, d.1 as int) == slide_step(diagonal, i as int),
        -1 <= d.0 <= 1,
        -1 <= d.1 <= 1,
{
    if diagonal {
        match i {
            0 => (1, 1),
            1 => (1, -1),
            2 => (-1, -1),
            _ => (-1, 1),
        }
    } else {
        match i {
            0 => (0, 1),
            1 => (1, 0),
            2 => (0, -1),
            _ => (-1, 0),
        }
    }
}

pub fn contains_move(moves: &Vec<Move>, mv: Move) -> (r: bool)
    ensures
        r == moves@.contains(mv),
{
    let mut i: usize = 0;
    while i < moves.len()
        invariant
            i <= moves.len(),
            forall|j: int| 0 <= j < i ==> moves@[j] != mv,
        decreases moves.len() - i,
    {
        if moves[i] == mv {
            assert(moves@[i as int] == mv);
            return true;
        }
        i = i + 1;
    }
    false
}

#[derive(Debug, Clone, Copy, PartialEq, Eq)]
pub struct Board {
    pub squares: [Option<Piece>; 64],
    pub side_to_move: Color,
    pub castling: CastlingRights,
    pub en_passant: Option<Square>,
    pub halfmove_clock: u32,
    pub fullmove_number: u32,
}

impl View for Board {
    type V = Position;

    open spec fn view(&self) -> Position {
        Position {
            squares: self.squares@,
            side: self.side_to_move,
            castling: self.castling,
            en_passant: self.en_passant,
            halfmove: self.halfmove_clock,
            fullmove: self.fullmove_number,
        }
    }
}

/// What stands on a square at the start of a game.
pub open spec fn start_piece(i: int) -> Option<Piece> {
    let f = i % 8;
    let back = if f == 0 || f == 7 {
        PieceKind::Rook
    } else if f == 1 || f == 6 {
        PieceKind::Knight
    } else if f == 2 || f == 5 {
        PieceKind::Bishop
    } else if f == 3 {
        PieceKind::Queen
    } else {
        PieceKind::King
    };
    if i < 8 {
        Some(Piece { color: Color::White, kind: back })
    } else if i < 16 {
        Some(Piece { color: Color::White, kind: PieceKind::Pawn })
    } else if i < 48 {
        None
    } else if i < 56 {
        Some(Piece { color: Color::Black, kind: PieceKind::Pawn })
    } else {
        Some(Piece { color: Color::Black, kind: back })
    }
}

/// The position at the start of a game.
pub open spec fn start_position() -> Position {
    Position {
        squares: Seq::new(64, |i: int| start_piece(i)),
        side: Color::White,
        castling: CastlingRights::all(),
        en_passant: None,
        halfmove: 0,
        fullmove: 1,
    }
}

/// The position with nothing on the board.
pub open spec fn empty_position() -> Position {
    Position {
        squares: Seq::new(64, |i: int| None),
        side: Color::White,
        castling: CastlingRights::nothing(),
        en_passant: None,
        halfmove: 0,
        fullmove: 1,
    }
}

impl Default for Board {
    fn default() -> (r: Self)
        ensures
            r@ == start_position(),
    {
        Board::starting_position()
    }
}

impl Board {
    /// Whether the en passant square, where there is one, is on the board.
    pub open spec fn valid(self) -> bool {
        self.en_passant matches Some(sq) ==> sq.valid()
    }

    pub fn starting_position() -> (r: Board)
        ensures
            r@ == start_position(),
            r.valid(),
    {
        let mut board = Board::empty();
        let mut file: usize = 0;
        while file < 8
            invariant
                file <= 8,
                board@ == (Position { squares: board@.squares, ..empty_position() }),
                forall|i: int| 0 <= i < 64 && i % 8 < file ==> board@.squares[i] == start_piece(i),
                forall|i: int| 0 <= i < 64 && i % 8 >= file ==> board@.squares[i] is None,
            decreases 8 - file,
        {
            let kind = match file {
                0 | 7 => PieceKind::Rook,
                1 | 6 => PieceKind::Knight,
                2 | 5 => PieceKind::Bishop,
                3 => PieceKind::Queen,
                _ => PieceKind::King,
            };
            board.squares[file] = Some(Piece::new(Color::White, kind));
            board.squares[56 + file] = Some(Piece::new(Color::Black, kind));
            board.squares[8 + file] = Some(Piece::new(Color::White, PieceKind::Pawn));
            board.squares[48 + file] = Some(Piece::new(Color::Black, PieceKind::Pawn));
            file = file + 1;
        }
        board.castling = CastlingRights::default();
        assert(board@.squares =~= start_position().squares);
        board
    }

    pub fn empty() -> (r: Board)
        ensures
            r@ == empty_position(),
            r.valid(),
    {
        let squares: [Option<Piece>; 64] = vstd::array::array_fill_for_copy_types::<
            Option<Piece>,
            64,
        >(None);
        let board = Board {
            squares,
            side_to_move: Color::White,
            castling: CastlingRights::none(),
            en_passant: None,
            halfmove_clock: 0,
            fullmove_number: 1,
        };
        assert(board@.squares =~= empty_position().squares);
        board
    }

    pub fn piece_at(&self, sq: Square) -> (r: Option<Piece>)
        requires
            sq.valid(),
        ensures
            r == self@.squares[sq.0 as int],
    {
        self.squares[sq.0 as usize]
    }

    pub fn set_piece(&mut self, sq: Square, piece: Option<Piece>)
        requires
            sq.valid(),
        ensures
            final(self)@ == (Position {
                squares: old(self)@.squares.update(sq.0 as int, piece),
                ..old(self)@
            }),
    {
        self.squares[sq.0 as usize] = piece;
        assert(self@.squares =~= old(self)@.squares.update(sq.0 as int, piece));
    }

    pub fn squares(&self) -> (r: &[Option<Piece>; 64])
        ensures
            r@ == self@.squares,
    {
        &self.squares
    }

    /// Whether a piece of one color and kind stands on a file and a rank.
    fn has(&self, file: i8, rank: i8, color: Color, kind: PieceKind) -> (r: bool)
        ensures
            r == holds(self@.squares, file as int, rank as int, color, kind),
    {
        match Square::from_coords(file, rank) {
            Some(sq) => self.piece_at(sq) == Some(Piece { color, kind }),
            None => false,
        }
    }

    /// Put something on a file and a rank, where that is on the board.
    fn put_at(&mut self, file: i8, rank: i8, piece: Option<Piece>)
        ensures
            final(self)@ == (Position {
                squares: put(old(self)@.squares, file as int, rank as int, piece),
                ..old(self)@
            }),
    {
        match Square::from_coords(file, rank) {
            Some(sq) => self.set_piece(sq, piece),
            None => {},
        }
    }

    pub fn king_square(&self, color: Color) -> (r: Option<Square>)
        ensures
            r == king_from(self@.squares, color, 0),
            r matches Some(sq) ==> sq.valid(),
    {
        let mut i: u8 = 0;
        while i < 64
            invariant
                i <= 64,
                king_from(self@.squares, color, 0) == king_from(self@.squares, color, i as int),
            decreases 64 - i,
        {
            if self.piece_at(Square(i)) == Some(Piece { color, kind: PieceKind::King }) {
                return Some(Square(i));
            }
            i = i + 1;
        }
        None
    }

    /// The first piece met from a square on in one direction.
    fn first_piece(&self, file: i8, rank: i8, d: (i8, i8)) -> (r: Option<Piece>)
        requires
            -1 <= file <= 8,
            -1 <= rank <= 8,
            -1 <= d.0 <= 1,
            -1 <= d.1 <= 1,
        ensures
            r == first_on_ray(
                self@.squares,
                file as int,
                rank as int,
                (d.0 as int, d.1 as int),
                8,
            ),
    {
        let mut f: i8 = file;
        let mut k: i8 = rank;
        let mut left: usize = 8;
        let ghost s = self@.squares;
        let ghost step = (d.0 as int, d.1 as int);
        while left > 0
            invariant
                -1 <= f <= 8,
                -1 <= k <= 8,
                -1 <= d.0 <= 1,
                -1 <= d.1 <= 1,
                s == self@.squares,
                step == (d.0 as int, d.1 as int),
                first_on_ray(s, file as int, rank as int, step, 8) == first_on_ray(
                    s,
                    f as int,
                    k as int,
                    step,
                    left as nat,
                ),
            decreases left,
        {
            match Square::from_coords(f, k) {
                None => {
                    return None;
                },
                Some(sq) => {
                    let piece = self.piece_at(sq);
                    if piece.is_some() {
                        return piece;
                    }
                    f = f + d.0;
                    k = k + d.1;
                    left = left - 1;
                },
            }
        }
        None
    }

    /// Whether a slider of `by` attacks the square along its lines.
    fn is_attacked_along(&self, sq: Square, by: Color, diagonal: bool) -> (r: bool)
        requires
            sq.valid(),
        ensures
            r == exists|i: int|
                0 <= i < 4 && #[trigger] ray_attack(
                    self@.squares,
                    sq.on_file(),
                    sq.on_rank(),
                    by,
                    diagonal,
                    i,
                ),
    {
        let kind = if diagonal {
            PieceKind::Bishop
        } else {
            PieceKind::Rook
        };
        let mut i: usize = 0;
        while i < 4
            invariant
                i <= 4,
                sq.valid(),
                kind == (if diagonal {
                    PieceKind::Bishop
                } else {
                    PieceKind::Rook
                }),
                forall|j: int|
                    0 <= j < i ==> !#[trigger] ray_attack(
                        self@.squares,
                        sq.on_file(),
                        sq.on_rank(),
                        by,
                        diagonal,
                        j,
                    ),
            decreases 4 - i,
        {
            let d = slide_way(diagonal, i);
            let found = self.first_piece(sq.file() as i8 + d.0, sq.rank() as i8 + d.1, d);
            let hit = match found {
                Some(piece) => piece.color == by && (piece.kind == kind || piece.kind
                    == PieceKind::Queen),
                None => false,
            };
            assert(hit == ray_attack(
                self@.squares,
                sq.on_file(),
                sq.on_rank(),
                by,
                diagonal,
                i as int,
            ));
            if hit {
                return true;
            }
            i = i + 1;
        }
        false
    }

    pub fn is_square_attacked(&self, sq: Square, by: Color) -> (r: bool)
        requires
            sq.valid(),
        ensures
            r == attacked(self@.squares, sq.on_file(), sq.on_rank(), by),
    {
        let file: i8 = sq.file() as i8;
        let rank: i8 = sq.rank() as i8;
        let ghost s = self@.squares;
        let pawn_rank: i8 = rank - by.pawn_direction();
        if self.has(file - 1, pawn_rank, by, PieceKind::Pawn) || self.has(
            file + 1,
            pawn_rank,
            by,
            PieceKind::Pawn,
        ) {
            return true;
        }
        let mut i: usize = 0;
        while i < 8
            invariant
                i <= 8,
                0 <= file < 8,
                0 <= rank < 8,
                s == self@.squares,
                forall|j: int|
                    0 <= j < i ==> !holds(
                        s,
                        file + (#[trigger] knight_step(j)).0,
                        rank + knight_step(j).1,
                        by,
                        PieceKind::Knight,
                    ),
                forall|j: int|
                    0 <= j < i ==> !holds(
                        s,
                        file + (#[trigger] king_step(j)).0,
                        rank + king_step(j).1,
                        by,
                        PieceKind::King,
                    ),
                file == sq.on_file(),
                rank == sq.on_rank(),
            decreases 8 - i,
        {
            let jump = knight_jump(i);
            if self.has(file + jump.0, rank + jump.1, by, PieceKind::Knight) {
                return true;
            }
            let walk = king_walk(i);
            if self.has(file + walk.0, rank + walk.1, by, PieceKind::King) {
                return true;
            }
            i = i + 1;
        }
        self.is_attacked_along(sq, by, false) || self.is_attacked_along(sq, by, true)
    }

    pub fn is_check(&self) -> (r: bool)
        ensures
            r == in_check(self@.squares, self@.side),
    {
        self.is_check_for(self.side_to_move)
    }

    pub fn is_check_for(&self, color: Color) -> (r: bool)
        ensures
            r == in_check(self@.squares, color),
    {
        match self.king_square(color) {
            Some(king) => self.is_square_attacked(king, color.opposite()),
            None => false,
        }
    }

    pub fn legal_moves(&self) -> (r: Vec<Move>)
        ensures
            r@ == legal_moves(self@),
            all_valid(r@),
    {
        let all = self.pseudo_legal_moves();
        let mut kept: Vec<Move> = Vec::new();
        let mut i: usize = 0;
        while i < all.len()
            invariant
                i <= all.len(),
                all_valid(all@),
                all_valid(kept@),
                kept@ == keep_safe(self@, all@.take(i as int)),
            decreases all.len() - i,
        {
            let mv = all[i];
            assert(all@.take(i + 1).drop_last() =~= all@.take(i as int));
            assert(all@.take(i + 1).last() == mv);
            if self.is_legal(mv) {
                kept.push(mv);
            }
            i = i + 1;
        }
        assert(all@.take(all@.len() as int) =~= all@);
        kept
    }

    pub fn legal_moves_from(&self, from: Square) -> (r: Vec<Move>)
        ensures
            r@ == keep_from(legal_moves(self@), from),
            all_valid(r@),
    {
        let all = self.legal_moves();
        let mut kept: Vec<Move> = Vec::new();
        let mut i: usize = 0;
        while i < all.len()
            invariant
                i <= all.len(),
                all_valid(all@),
                all_valid(kept@),
                kept@ == keep_from(all@.take(i as int), from),
            decreases all.len() - i,
        {
            let mv = all[i];
            assert(all@.take(i + 1).drop_last() =~= all@.take(i as int));
            assert(all@.take(i + 1).last() == mv);
            if mv.from == from {
                kept.push(mv);
            }
            i = i + 1;
        }
        assert(all@.take(all@.len() as int) =~= all@);
        kept
    }

    /// Whether a move leaves one's own king out of check.
    pub fn is_legal(&self, mv: Move) -> (r: bool)
        requires
            mv.valid(),
        ensures
            r == keeps_king_safe(self@, mv),
    {
        let mover = match self.piece_at(mv.from) {
            Some(p) => p,
            None => return false,
        };
        let mut probe = *self;
        probe.apply_unchecked(mv);
        !probe.is_check_for(mover.color)
    }

    pub fn pseudo_legal_moves(&self) -> (r: Vec<Move>)
        ensures
            r@ == pseudo_moves(self@, 64),
            all_valid(r@),
    {
        let mut moves: Vec<Move> = Vec::new();
        let mut i: u8 = 0;
        while i < 64
            invariant
                i <= 64,
                moves@ == pseudo_moves(self@, i as nat),
                all_valid(moves@),
            decreases 64 - i,
        {
            self.gen_from(Square(i), &mut moves);
            i = i + 1;
        }
        moves
    }

    /// Append the moves of the piece on one square.
    fn gen_from(&self, from: Square, moves: &mut Vec<Move>)
        requires
            from.valid(),
            all_valid(old(moves)@),
        ensures
            final(moves)@ == old(moves)@ + moves_from(self@, from),
            all_valid(final(moves)@),
    {
        let me = self.side_to_move;
        let piece = match self.piece_at(from) {
            Some(p) => p,
            None => {
                return;
            },
        };
        if piece.color != me {
            return;
        }
        match piece.kind {
            PieceKind::Pawn => self.gen_pawn_moves(from, me, moves),
            PieceKind::Knight => self.gen_steps(from, me, true, moves),
            PieceKind::King => {
                self.gen_steps(from, me, false, moves);
                self.gen_castling(me, moves);
            },
            PieceKind::Bishop => self.gen_sliding(from, me, true, moves),
            PieceKind::Rook => self.gen_sliding(from, me, false, moves),
            PieceKind::Queen => {
                self.gen_sliding(from, me, true, moves);
                self.gen_sliding(from, me, false, moves);
            },
        }
        assert(moves@ =~= old(moves)@ + moves_from(self@, from));
    }

    /// Append the steps of a knight or a king.
    fn gen_steps(&self, from: Square, me: Color, knight: bool, moves: &mut Vec<Move>)
        requires
            from.valid(),
            all_valid(old(moves)@),
        ensures
            final(moves)@ == old(moves)@ + step_moves(self@.squares, from, me, knight, 8),
            all_valid(final(moves)@),
    {
        let file: i8 = from.file() as i8;
        let rank: i8 = from.rank() as i8;
        let ghost start = moves@;
        let ghost s = self@.squares;
        let mut i: usize = 0;
        assert(start + step_moves(s, from, me, knight, 0) =~= start);
        while i < 8
            invariant
                i <= 8,
                from.valid(),
                file == from.on_file(),
                rank == from.on_rank(),
                0 <= file < 8,
                0 <= rank < 8,
                s == self@.squares,
                all_valid(moves@),
                moves@ == start + step_moves(s, from, me, knight, i as nat),
            decreases 8 - i,
        {
            let d = if knight {
                knight_jump(i)
            } else {
                king_walk(i)
            };
            if let Some(to) = Square::from_coords(file + d.0, rank + d.1) {
                if !self.is_own(to, me) {
                    moves.push(Move::new(from, to));
                }
            }
            i = i + 1;
            assert(moves@ =~= start + step_moves(s, from, me, knight, i as nat));
        }
    }

    /// Whether a piece of one's own stands on a square.
    fn is_own(&self, sq: Square, me: Color) -> (r: bool)
        requires
            sq.valid(),
        ensures
            r == own_piece(self@.squares[sq.0 as int], me),
    {
        match self.piece_at(sq) {
            Some(p) => p.color == me,
            None => false,
        }
    }

    /// Append the moves of a slider along its four lines.
    fn gen_sliding(&self, from: Square, me: Color, diagonal: bool, moves: &mut Vec<Move>)
        requires
            from.valid(),
            all_valid(old(moves)@),
        ensures
            final(moves)@ == old(moves)@ + slide_moves(self@.squares, from, me, diagonal, 4),
            all_valid(final(moves)@),
    {
        let ghost start = moves@;
        let ghost s = self@.squares;
        let mut i: usize = 0;
        assert(start + slide_moves(s, from, me, diagonal, 0) =~= start);
        while i < 4
            invariant
                i <= 4,
                from.valid(),
                s == self@.squares,
                all_valid(moves@),
                moves@ == start + slide_moves(s, from, me, diagonal, i as nat),
            decreases 4 - i,
        {
            self.gen_ray(from, me, slide_way(diagonal, i), moves);
            i = i + 1;
            assert(moves@ =~= start + slide_moves(s, from, me, diagonal, i as nat));
        }
    }

    /// Append the moves of a slider along one line.
    fn gen_ray(&self, from: Square, me: Color, d: (i8, i8), moves: &mut Vec<Move>)
        requires
            from.valid(),
            -1 <= d.0 <= 1,
            -1 <= d.1 <= 1,
            all_valid(old(moves)@),
        ensures
            final(moves)@ == old(moves)@ + ray_moves(
                self@.squares,
                from,
                me,
                from.on_file() + d.0,
                from.on_rank() + d.1,
                (d.0 as int, d.1 as int),
                8,
            ),
            all_valid(final(moves)@),
    {
        let ghost s = self@.squares;
        let ghost step = (d.0 as int, d.1 as int);
        let mut f: i8 = from.file() as i8 + d.0;
        let mut k: i8 = from.rank() as i8 + d.1;
        let mut left: usize = 8;
        let ghost goal = moves@ + ray_moves(s, from, me, f as int, k as int, step, 8);
        while left > 0
            invariant
                from.valid(),
                -1 <= f <= 8,
                -1 <= k <= 8,
                -1 <= d.0 <= 1,
                -1 <= d.1 <= 1,
                s == self@.squares,
                step == (d.0 as int, d.1 as int),
                all_valid(moves@),
                goal == moves@ + ray_moves(s, from, me, f as int, k as int, step, left as nat),
                goal == old(moves)@ + ray_moves(
                    s,
                    from,
                    me,
                    from.on_file() + d.0,
                    from.on_rank() + d.1,
                    step,
                    8,
                ),
            decreases left,
        {
            match Square::from_coords(f, k) {
                None => {
                    assert(moves@ =~= goal);
                    return;
                },
                Some(to) => {
                    match self.piece_at(to) {
                        None => {
                            moves.push(Move::new(from, to));
                            f = f + d.0;
                            k = k + d.1;
                            left = left - 1;
                            assert(goal =~= moves@ + ray_moves(
                                s,
                                from,
                                me,
                                f as int,
                                k as int,
                                step,
                                left as nat,
                            ));
                        },
                        Some(p) => {
                            if p.color != me {
                                moves.push(Move::new(from, to));
                            }
                            assert(moves@ =~= goal);
                            return;
                        },
                    }
                },
            }
        }
        assert(moves@ =~= goal);
    }

    /// Append a pawn's move to a square, one for each piece it can become.
    fn push_arrivals(from: Square, to: Square, me: Color, moves: &mut Vec<Move>)
        requires
            from.valid(),
            to.valid(),
            all_valid(old(moves)@),
        ensures
            final(moves)@ == old(moves)@ + pawn_arrivals(from, to, me),
            all_valid(final(moves)@),
    {
        if to.rank() == me.promotion_rank() {
            moves.push(Move::promoting(from, to, PieceKind::Queen));
            moves.push(Move::promoting(from, to, PieceKind::Rook));
            moves.push(Move::promoting(from, to, PieceKind::Bishop));
            moves.push(Move::promoting(from, to, PieceKind::Knight));
        } else {
            moves.push(Move::new(from, to));
        }
        assert(moves@ =~= old(moves)@ + pawn_arrivals(from, to, me));
    }

    /// Append the moves of a pawn.
    fn gen_pawn_moves(&self, from: Square, me: Color, moves: &mut Vec<Move>)
        requires
            from.valid(),
            all_valid(old(moves)@),
        ensures
            final(moves)@ == old(moves)@ + pawn_moves(self@, from, me),
            all_valid(final(moves)@),
    {
        self.gen_pawn_advances(from, me, moves);
        self.gen_pawn_capture(from, me, -1, moves);
        self.gen_pawn_capture(from, me, 1, moves);
        assert(moves@ =~= old(moves)@ + pawn_moves(self@, from, me));
    }

    /// Append a pawn's moves straight ahead.
    fn gen_pawn_advances(&self, from: Square, me: Color, moves: &mut Vec<Move>)
        requires
            from.valid(),
            all_valid(old(moves)@),
        ensures
            final(moves)@ == old(moves)@ + pawn_advances(self@.squares, from, me),
            all_valid(final(moves)@),
    {
        let file: i8 = from.file() as i8;
        let rank: i8 = from.rank() as i8;
        let dir: i8 = me.pawn_direction();
        let ghost start = moves@;
        if let Some(one) = Square::from_coords(file, rank + dir) {
            if self.piece_at(one).is_none() {
                Board::push_arrivals(from, one, me, moves);
                if rank == me.pawn_start_rank() as i8 {
                    if let Some(two) = Square::from_coords(file, rank + 2 * dir) {
                        if self.piece_at(two).is_none() {
                            moves.push(Move::new(from, two));
                        }
                    }
                }
            }
        }
        assert(moves@ =~= start + pawn_advances(self@.squares, from, me));
    }

    /// Append a pawn's captures to one side.
    fn gen_pawn_capture(&self, from: Square, me: Color, df: i8, moves: &mut Vec<Move>)
        requires
            from.valid(),
            -1 <= df <= 1,
            all_valid(old(moves)@),
        ensures
            final(moves)@ == old(moves)@ + pawn_captures(self@, from, me, df as int),
            all_valid(final(moves)@),
    {
        if let Some(to) = Square::from_coords(
            from.file() as i8 + df,
            from.rank() as i8 + me.pawn_direction(),
        ) {
            if self.is_own(to, me.opposite()) || self.en_passant == Some(to) {
                Board::push_arrivals(from, to, me, moves);
            }
        }
        assert(moves@ =~= old(moves)@ + pawn_captures(self@, from, me, df as int));
    }

    /// Whether a file of the home rank is empty and not attacked.
    fn is_free_and_safe(&self, me: Color, file: i8) -> (r: bool)
        requires
            0 <= file < 8,
        ensures
            r == free_and_safe(self@.squares, me, file as int),
    {
        match Square::from_coords(file, me.back_rank() as i8) {
            Some(sq) => self.piece_at(sq).is_none() && !self.is_square_attacked(sq, me.opposite()),
            None => false,
        }
    }

    /// Append the castling moves.
    fn gen_castling(&self, me: Color, moves: &mut Vec<Move>)
        requires
            all_valid(old(moves)@),
        ensures
            final(moves)@ == old(moves)@ + castling_moves(self@, me),
            all_valid(final(moves)@),
    {
        let back: i8 = me.back_rank() as i8;
        let king_from = Square(me.back_rank() * 8 + 4);
        let ghost start = moves@;
        if !self.has(4, back, me, PieceKind::King) || self.is_square_attacked(
            king_from,
            me.opposite(),
        ) {
            assert(moves@ =~= start + castling_moves(self@, me));
            return;
        }
        if self.castling.kingside(me) && self.has(7, back, me, PieceKind::Rook)
            && self.is_free_and_safe(me, 5) && self.is_free_and_safe(me, 6) {
            moves.push(Move::new(king_from, Square(me.back_rank() * 8 + 6)));
        }
        assert(moves@ =~= start + (if can_castle_kingside(self@, me) {
            seq![Move { from: home_square(me, 4), to: home_square(me, 6), promotion: None }]
        } else {
            Seq::empty()
        }));
        if self.castling.queenside(me) && self.has(0, back, me, PieceKind::Rook) && self.piece_at(
            Square(me.back_rank() * 8 + 1),
        ).is_none() && self.is_free_and_safe(me, 3) && self.is_free_and_safe(me, 2) {
            moves.push(Move::new(king_from, Square(me.back_rank() * 8 + 2)));
        }
        assert(moves@ =~= start + castling_moves(self@, me));
    }

    pub fn make_move(&mut self, mv: Move) -> (r: Result<MoveOutcome, MoveError>)
        requires
            mv.valid(),
            old(self).valid(),
        ensures
            match r {
                Ok(outcome) => move_fault(old(self)@, mv) is None && tells(outcome, old(self)@, mv)
                    && final(self)@ == apply(old(self)@, mv),
                Err(e) => move_fault(old(self)@, mv) == Some(e) && final(self)@ == old(self)@,
            },
            final(self).valid(),
    {
        let piece = match self.piece_at(mv.from) {
            Some(p) => p,
            None => return Err(MoveError::EmptySquare),
        };
        if piece.color != self.side_to_move {
            return Err(MoveError::WrongColor);
        }
        let promotes = piece.kind == PieceKind::Pawn && mv.to.rank()
            == self.side_to_move.promotion_rank();
        match mv.promotion {
            Some(kind) => {
                if !promotes || !kind.is_promotable() {
                    return Err(MoveError::BadPromotion);
                }
            },
            None => {
                if promotes {
                    return Err(MoveError::BadPromotion);
                }
            },
        }
        let legal = self.legal_moves();
        if !contains_move(&legal, mv) {
            return Err(MoveError::Illegal);
        }
        let mut san = self.san_body(mv, piece);
        let captured = self.captured_piece(mv, piece);
        let is_en_passant = piece.kind == PieceKind::Pawn && self.en_passant == Some(mv.to)
            && self.piece_at(mv.to).is_none();
        let file_delta: i8 = mv.to.file() as i8 - mv.from.file() as i8;
        let is_castle_kingside = piece.kind == PieceKind::King && file_delta == 2;
        let is_castle_queenside = piece.kind == PieceKind::King && file_delta == -2;

        self.apply_unchecked(mv);

        let gives_check = self.is_check();
        let replies = self.legal_moves();
        let gives_checkmate = gives_check && replies.len() == 0;
        if gives_checkmate {
            san.push('#');
        } else if gives_check {
            san.push('+');
        }
        assert(san@ =~= super::rules::san(old(self)@, mv, piece));
        Ok(
            MoveOutcome {
                mv,
                piece,
                captured,
                is_castle_kingside,
                is_castle_queenside,
                is_en_passant,
                gives_check,
                gives_checkmate,
                san,
            },
        )
    }

    /// The piece a move takes.
    fn captured_piece(&self, mv: Move, piece: Piece) -> (r: Option<Piece>)
        requires
            mv.valid(),
        ensures
            r == captured(self@, mv, piece),
    {
        let there = self.piece_at(mv.to);
        if there.is_some() {
            return there;
        }
        if piece.kind == PieceKind::Pawn && self.en_passant == Some(mv.to) {
            return match Square::from_coords(
                mv.to.file() as i8,
                mv.to.rank() as i8 - piece.color.pawn_direction(),
            ) {
                Some(sq) => self.piece_at(sq),
                None => None,
            };
        }
        None
    }

    /// The part of a move that happens on the squares.
    fn shift_pieces(&mut self, mv: Move, piece: Piece)
        requires
            mv.valid(),
        ensures
            final(self)@ == (Position {
                squares: squares_after(old(self)@, mv, piece),
                ..old(self)@
            }),
    {
        let me = piece.color;
        let is_en_passant = piece.kind == PieceKind::Pawn && self.en_passant == Some(mv.to)
            && self.piece_at(mv.to).is_none();
        if is_en_passant {
            self.put_at(mv.to.file() as i8, mv.to.rank() as i8 - me.pawn_direction(), None);
        }
        self.hop_rook(mv, piece);
        let landing = match mv.promotion {
            Some(kind) => Piece::new(me, kind),
            None => piece,
        };
        self.set_piece(mv.from, None);
        self.set_piece(mv.to, Some(landing));
    }

    /// The rook's part of castling.
    fn hop_rook(&mut self, mv: Move, piece: Piece)
        requires
            mv.valid(),
        ensures
            final(self)@ == (Position {
                squares: rook_hop(old(self)@.squares, mv, piece),
                ..old(self)@
            }),
    {
        if piece.kind == PieceKind::King {
            let back: u8 = piece.color.back_rank();
            let delta: i8 = mv.to.file() as i8 - mv.from.file() as i8;
            if delta == 2 {
                let rook = self.piece_at(Square(back * 8 + 7));
                self.put_at(7, back as i8, None);
                self.put_at(5, back as i8, rook);
            } else if delta == -2 {
                let rook = self.piece_at(Square(back * 8));
                self.put_at(0, back as i8, None);
                self.put_at(3, back as i8, rook);
            }
        }
    }

    /// Make a move without asking whether it is legal.
    fn apply_unchecked(&mut self, mv: Move)
        requires
            mv.valid(),
        ensures
            final(self)@ == apply(old(self)@, mv),
            old(self).valid() ==> final(self).valid(),
    {
        let piece = match self.piece_at(mv.from) {
            Some(p) => p,
            None => {
                return;
            },
        };
        let me = piece.color;
        let is_capture = self.piece_at(mv.to).is_some();
        self.shift_pieces(mv, piece);
        if piece.kind == PieceKind::King {
            self.castling.clear_for(me);
        }
        self.revoke_rook_rights(mv.from);
        self.revoke_rook_rights(mv.to);

        let jump: i8 = mv.to.rank() as i8 - mv.from.rank() as i8;
        self.en_passant =
        if piece.kind == PieceKind::Pawn && (jump == 2 || jump == -2) {
            Square::from_coords(mv.from.file() as i8, mv.from.rank() as i8 + me.pawn_direction())
        } else {
            None
        };
        if piece.kind == PieceKind::Pawn || is_capture {
            self.halfmove_clock = 0;
        } else {
            self.halfmove_clock = self.halfmove_clock.wrapping_add(1);
        }
        if me == Color::Black {
            self.fullmove_number = self.fullmove_number.wrapping_add(1);
        }
        self.side_to_move = me.opposite();
    }

    /// Take back the castling rights that go with a corner.
    fn revoke_rook_rights(&mut self, sq: Square)
        requires
            sq.valid(),
        ensures
            final(self)@ == (Position {
                castling: rights_after(old(self)@.castling, sq),
                ..old(self)@
            }),
    {
        let file: u8 = sq.file();
        let rank: u8 = sq.rank();
        if file == 0 && rank == 0 {
            self.castling.white_queenside = false;
        } else if file == 7 && rank == 0 {
            self.castling.white_kingside = false;
        } else if file == 0 && rank == 7 {
            self.castling.black_queenside = false;
        } else if file == 7 && rank == 7 {
            self.castling.black_kingside = false;
        }
    }

    /// A move in standard algebraic notation, without the sign for check.
    fn san_body(&self, mv: Move, piece: Piece) -> (r: String)
        requires
            mv.valid(),
        ensures
            r@ == san_body(self@, mv, piece),
    {
        let file_delta: i8 = mv.to.file() as i8 - mv.from.file() as i8;
        let mut san = String::new();
        if piece.kind == PieceKind::King && file_delta == 2 {
            san.push('O');
            san.push('-');
            san.push('O');
            assert(san@ =~= san_body(self@, mv, piece));
            return san;
        }
        if piece.kind == PieceKind::King && file_delta == -2 {
            san.push('O');
            san.push('-');
            san.push('O');
            san.push('-');
            san.push('O');
            assert(san@ =~= san_body(self@, mv, piece));
            return san;
        }
        let is_capture = self.piece_at(mv.to).is_some() || (piece.kind == PieceKind::Pawn
            && self.en_passant == Some(mv.to));
        if piece.kind == PieceKind::Pawn {
            if is_capture {
                san.push(file_letter(mv.from.file()));
                san.push('x');
            }
        } else {
            san.push(piece.kind.capital());
            let extra = self.disambiguation(mv, piece);
            san.push_str(extra.as_str());
            if is_capture {
                san.push('x');
            }
        }
        mv.to.push_name(&mut san);
        if let Some(kind) = mv.promotion {
            san.push('=');
            san.push(kind.capital());
        }
        assert(san@ =~= san_body(self@, mv, piece));
        san
    }

    /// What tells a move from the others of the same kind of piece to the same
    /// square.
    fn disambiguation(&self, mv: Move, piece: Piece) -> (r: String)
        requires
            mv.valid(),
        ensures
            r@ == disambiguation(self@, mv, piece),
    {
        let legal = self.legal_moves();
        let mut rivals = false;
        let mut same_file = false;
        let mut same_rank = false;
        let mut i: usize = 0;
        while i < legal.len()
            invariant
                i <= legal.len(),
                mv.valid(),
                all_valid(legal@),
                rivals == exists|j: int|
                    0 <= j < i && rival(self@, mv, piece, #[trigger] legal@[j]),
                same_file == exists|j: int|
                    0 <= j < i && rival(self@, mv, piece, #[trigger] legal@[j])
                        && legal@[j].from.on_file() == mv.from.on_file(),
                same_rank == exists|j: int|
                    0 <= j < i && rival(self@, mv, piece, #[trigger] legal@[j])
                        && legal@[j].from.on_rank() == mv.from.on_rank(),
            decreases legal.len() - i,
        {
            let m = legal[i];
            assert(m.valid());
            if m.to == mv.to && m.from != mv.from && self.piece_at(m.from) == Some(piece)
                && m.promotion == mv.promotion {
                rivals = true;
                if m.from.file() == mv.from.file() {
                    same_file = true;
                }
                if m.from.rank() == mv.from.rank() {
                    same_rank = true;
                }
            }
            i = i + 1;
        }
        let mut out = String::new();
        if !rivals {
            return out;
        }
        if !same_file {
            out.push(file_letter(mv.from.file()));
            assert(out@ =~= disambiguation(self@, mv, piece));
            return out;
        }
        if !same_rank {
            out.push(rank_digit(mv.from.rank()));
            assert(out@ =~= disambiguation(self@, mv, piece));
            return out;
        }
        mv.from.name()
    }

    pub fn has_insufficient_material(&self) -> (r: bool)
        ensures
            r == insufficient_material(self@.squares),
    {
        let mut found: Vec<Square> = Vec::new();
        let ghost s = self@.squares;
        let mut i: u8 = 0;
        while i < 64
            invariant
                i <= 64,
                s == self@.squares,
                found@ == minors(s, i as nat),
                forall|j: int| 0 <= j < found@.len() ==> (#[trigger] found@[j]).0 < i
                    && s[found@[j].0 as int] is Some,
                forall|j: int| 0 <= j < i ==> !mates_alone(#[trigger] s[j]),
            decreases 64 - i,
        {
            let sq = Square(i);
            if let Some(p) = self.piece_at(sq) {
                match p.kind {
                    PieceKind::King => {},
                    PieceKind::Bishop | PieceKind::Knight => {
                        found.push(sq);
                    },
                    _ => {
                        assert(mates_alone(s[i as int]));
                        return false;
                    },
                }
            }
            i = i + 1;
        }
        if found.len() <= 1 {
            return true;
        }
        if found.len() != 2 {
            return false;
        }
        let (first, second) = (found[0], found[1]);
        match (self.piece_at(first), self.piece_at(second)) {
            (Some(a), Some(b)) => a.kind == PieceKind::Bishop && b.kind == PieceKind::Bishop
                && a.color != b.color && first.is_light() == second.is_light(),
            _ => false,
        }
    }

    pub fn position_key(&self) -> (r: String)
        requires
            self.valid(),
        ensures
            r@ == position_key(self@),
    {
        let mut key = String::new();
        let ghost whole = Seq::new(
            64,
            |k: int| key_char(self@.squares[(7 - k / 8) * 8 + k % 8]),
        );
        let mut k: u8 = 0;
        while k < 64
            invariant
                k <= 64,
                whole == Seq::new(64, |k: int| key_char(self@.squares[(7 - k / 8) * 8 + k % 8])),
                key@ == whole.take(k as int),
            decreases 64 - k,
        {
            match self.piece_at(Square((7 - k / 8) * 8 + k % 8)) {
                Some(p) => key.push(p.fen_char()),
                None => key.push('.'),
            }
            assert(key@ =~= whole.take(k + 1));
            k = k + 1;
        }
        assert(key@ =~= whole);
        key.push(self.side_letter());
        let rights = self.castling.to_fen();
        key.push_str(rights.as_str());
        if let Some(ep) = self.en_passant {
            if self.en_passant_is_capturable(ep) {
                ep.push_name(&mut key);
            }
        }
        assert(key@ =~= position_key(self@));
        key
    }

    pub fn side_letter(&self) -> (r: char)
        ensures
            r == side_char(self@.side),
    {
        match self.side_to_move {
            Color::White => 'w',
            Color::Black => 'b',
        }
    }

    /// Whether a pawn of the side to move stands ready to take en passant.
    fn en_passant_is_capturable(&self, ep: Square) -> (r: bool)
        requires
            ep.valid(),
        ensures
            r == en_passant_matters(self@, ep),
    {
        let me = self.side_to_move;
        let file: i8 = ep.file() as i8;
        let rank: i8 = ep.rank() as i8 - me.pawn_direction();
        self.has(file - 1, rank, me, PieceKind::Pawn) || self.has(
            file + 1,
            rank,
            me,
            PieceKind::Pawn,
        )
    }

    pub fn status(&self, repetitions: u32) -> (r: GameStatus)
        ensures
            r == status_of(self@, repetitions as int),
    {
        let legal = self.legal_moves();
        if legal.len() == 0 {
            return if self.is_check() {
                GameStatus::Checkmate { winner: self.side_to_move.opposite() }
            } else {
                GameStatus::Stalemate
            };
        }
        if self.has_insufficient_material() {
            return GameStatus::InsufficientMaterial;
        }
        if repetitions >= 3 {
            return GameStatus::ThreefoldRepetition;
        }
        if self.halfmove_clock >= 100 {
            return GameStatus::FiftyMoveRule;
        }
        GameStatus::InProgress
    }
}

} // verus!
