//! The rules of chess, as mathematics: what a position is, what is attacked,
//! which moves there are and what each does.

use super::types::{
    castling_text, file_char, kind_capital, on_board, piece_char, promotable, rank_char,
    square_at, square_name, CastlingRights, Color, GameStatus, Move, Piece, PieceKind, Square,
};
use crate::text::digits;
use vstd::prelude::*;

verus! {

/// A position: what stands on the 64 squares, and what the past leaves behind.
#[verifier::ext_equal]
pub struct Position {
    pub squares: Seq<Option<Piece>>,
    pub side: Color,
    pub castling: CastlingRights,
    pub en_passant: Option<Square>,
    pub halfmove: u32,
    pub fullmove: u32,
}

impl Position {
    pub open spec fn valid(self) -> bool {
        &&& self.squares.len() == 64
        &&& self.en_passant matches Some(sq) ==> sq.valid()
    }
}

/// What stands on a file and a rank; nothing does beside the board.
pub open spec fn at(s: Seq<Option<Piece>>, f: int, r: int) -> Option<Piece> {
    if on_board(f, r) {
        s[r * 8 + f]
    } else {
        None
    }
}

pub open spec fn holds(
    s: Seq<Option<Piece>>,
    f: int,
    r: int,
    color: Color,
    kind: PieceKind,
) -> bool {
    at(s, f, r) == Some(Piece { color, kind })
}

/// The eight jumps of a knight, in files and ranks.
pub open spec fn knight_step(i: int) -> (int, int) {
    if i == 0 {
        (1, 2)
    } else if i == 1 {
        (2, 1)
    } else if i == 2 {
        (2, -1)
    } else if i == 3 {
        (1, -2)
    } else if i == 4 {
        (-1, -2)
    } else if i == 5 {
        (-2, -1)
    } else if i == 6 {
        (-2, 1)
    } else {
        (-1, 2)
    }
}

/// The eight steps of a king.
pub open spec fn king_step(i: int) -> (int, int) {
    if i == 0 {
        (0, 1)
    } else if i == 1 {
        (1, 1)
    } else if i == 2 {
        (1, 0)
    } else if i == 3 {
        (1, -1)
    } else if i == 4 {
        (0, -1)
    } else if i == 5 {
        (-1, -1)
    } else if i == 6 {
        (-1, 0)
    } else {
        (-1, 1)
    }
}

/// The four directions of a bishop, or of a rook.
pub open spec fn slide_step(diagonal: bool, i: int) -> (int, int) {
    if diagonal {
        if i == 0 {
            (1, 1)
        } else if i == 1 {
            (1, -1)
        } else if i == 2 {
            (-1, -1)
        } else {
            (-1, 1)
        }
    } else {
        if i == 0 {
            (0, 1)
        } else if i == 1 {
            (1, 0)
        } else if i == 2 {
            (0, -1)
        } else {
            (-1, 0)
        }
    }
}

/// The first piece met from a square on in one direction, within `n` squares.
pub open spec fn first_on_ray(
    s: Seq<Option<Piece>>,
    f: int,
    r: int,
    d: (int, int),
    n: nat,
) -> Option<Piece>
    decreases n,
{
    if n == 0 || !on_board(f, r) {
        None
    } else if at(s, f, r) is Some {
        at(s, f, r)
    } else {
        first_on_ray(s, f + d.0, r + d.1, d, (n - 1) as nat)
    }
}

/// Whether a piece met along a line attacks along it.
pub open spec fn slides(p: Option<Piece>, by: Color, diagonal: bool) -> bool {
    match p {
        Some(piece) => piece.color == by && (piece.kind == PieceKind::Queen || piece.kind == (
        if diagonal {
            PieceKind::Bishop
        } else {
            PieceKind::Rook
        })),
        None => false,
    }
}

/// Whether a piece of `by` attacks the square along direction `i`.
pub open spec fn ray_attack(
    s: Seq<Option<Piece>>,
    f: int,
    r: int,
    by: Color,
    diagonal: bool,
    i: int,
) -> bool {
    let d = slide_step(diagonal, i);
    slides(first_on_ray(s, f + d.0, r + d.1, d, 8), by, diagonal)
}

/// Whether a piece of `by` attacks the square: a pawn beside and behind it, a
/// knight or a king a step away, or a slider with a clear line.
pub open spec fn attacked(s: Seq<Option<Piece>>, f: int, r: int, by: Color) -> bool {
    ||| holds(s, f - 1, r - by.forward(), by, PieceKind::Pawn)
    ||| holds(s, f + 1, r - by.forward(), by, PieceKind::Pawn)
    ||| exists|i: int|
        0 <= i < 8 && holds(
            s,
            f + (#[trigger] knight_step(i)).0,
            r + knight_step(i).1,
            by,
            PieceKind::Knight,
        )
    ||| exists|i: int|
        0 <= i < 8 && holds(
            s,
            f + (#[trigger] king_step(i)).0,
            r + king_step(i).1,
            by,
            PieceKind::King,
        )
    ||| exists|i: int| 0 <= i < 4 && #[trigger] ray_attack(s, f, r, by, false, i)
    ||| exists|i: int| 0 <= i < 4 && #[trigger] ray_attack(s, f, r, by, true, i)
}

/// The lowest square from `i` on that holds the king of `color`.
pub open spec fn king_from(s: Seq<Option<Piece>>, color: Color, i: int) -> Option<Square>
    decreases 64 - i,
{
    if i >= 64 {
        None
    } else if s[i] == Some(Piece { color, kind: PieceKind::King }) {
        Some(Square(i as u8))
    } else {
        king_from(s, color, i + 1)
    }
}

/// Whether the king of `color` stands attacked.
pub open spec fn in_check(s: Seq<Option<Piece>>, color: Color) -> bool {
    match king_from(s, color, 0) {
        Some(sq) => attacked(s, sq.on_file(), sq.on_rank(), color.other()),
        None => false,
    }
}

pub open spec fn own_piece(p: Option<Piece>, me: Color) -> bool {
    p matches Some(piece) && piece.color == me
}

/// The steps among the first `n` of a knight, or of a king, that do not land
/// on a piece of one's own.
pub open spec fn step_moves(
    s: Seq<Option<Piece>>,
    from: Square,
    me: Color,
    knight: bool,
    n: nat,
) -> Seq<Move>
    decreases n,
{
    if n == 0 {
        Seq::empty()
    } else {
        let rest = step_moves(s, from, me, knight, (n - 1) as nat);
        let d = if knight {
            knight_step(n - 1)
        } else {
            king_step(n - 1)
        };
        match square_at(from.on_file() + d.0, from.on_rank() + d.1) {
            Some(to) => if own_piece(s[to.0 as int], me) {
                rest
            } else {
                rest.push(Move { from, to, promotion: None })
            },
            None => rest,
        }
    }
}

/// The moves of a slider along one line: every empty square up to the first
/// piece, and that piece's square where it is the opponent's.
pub open spec fn ray_moves(
    s: Seq<Option<Piece>>,
    from: Square,
    me: Color,
    f: int,
    r: int,
    d: (int, int),
    n: nat,
) -> Seq<Move>
    decreases n,
{
    if n == 0 {
        Seq::empty()
    } else {
        match square_at(f, r) {
            None => Seq::empty(),
            Some(to) => match s[to.0 as int] {
                None => seq![Move { from, to, promotion: None }] + ray_moves(
                    s,
                    from,
                    me,
                    f + d.0,
                    r + d.1,
                    d,
                    (n - 1) as nat,
                ),
                Some(piece) => if piece.color == me {
                    Seq::empty()
                } else {
                    seq![Move { from, to, promotion: None }]
                },
            },
        }
    }
}

/// The moves of a slider along its first `n` lines.
pub open spec fn slide_moves(
    s: Seq<Option<Piece>>,
    from: Square,
    me: Color,
    diagonal: bool,
    n: nat,
) -> Seq<Move>
    decreases n,
{
    if n == 0 {
        Seq::empty()
    } else {
        let d = slide_step(diagonal, n - 1);
        slide_moves(s, from, me, diagonal, (n - 1) as nat) + ray_moves(
            s,
            from,
            me,
            from.on_file() + d.0,
            from.on_rank() + d.1,
            d,
            8,
        )
    }
}

/// A pawn's move to a square: one move, or one for each piece it can become.
pub open spec fn pawn_arrivals(from: Square, to: Square, me: Color) -> Seq<Move> {
    if to.on_rank() == me.last_rank() {
        seq![
            Move { from, to, promotion: Some(PieceKind::Queen) },
            Move { from, to, promotion: Some(PieceKind::Rook) },
            Move { from, to, promotion: Some(PieceKind::Bishop) },
            Move { from, to, promotion: Some(PieceKind::Knight) },
        ]
    } else {
        seq![Move { from, to, promotion: None }]
    }
}

/// A pawn's moves straight ahead: one square and, from its start, two.
pub open spec fn pawn_advances(s: Seq<Option<Piece>>, from: Square, me: Color) -> Seq<Move> {
    match square_at(from.on_file(), from.on_rank() + me.forward()) {
        Some(one) => if s[one.0 as int] is None {
            pawn_arrivals(from, one, me) + (match square_at(
                from.on_file(),
                from.on_rank() + 2 * me.forward(),
            ) {
                Some(two) => if from.on_rank() == me.pawn_home() && s[two.0 as int] is None {
                    seq![Move { from, to: two, promotion: None }]
                } else {
                    Seq::empty()
                },
                None => Seq::empty(),
            })
        } else {
            Seq::empty()
        },
        None => Seq::empty(),
    }
}

/// A pawn's captures to one side, en passant included.
pub open spec fn pawn_captures(p: Position, from: Square, me: Color, df: int) -> Seq<Move> {
    match square_at(from.on_file() + df, from.on_rank() + me.forward()) {
        Some(to) => if own_piece(p.squares[to.0 as int], me.other()) || p.en_passant == Some(to) {
            pawn_arrivals(from, to, me)
        } else {
            Seq::empty()
        },
        None => Seq::empty(),
    }
}

pub open spec fn pawn_moves(p: Position, from: Square, me: Color) -> Seq<Move> {
    pawn_advances(p.squares, from, me) + pawn_captures(p, from, me, -1) + pawn_captures(
        p,
        from,
        me,
        1,
    )
}

/// Whether a file of the home rank is empty and not attacked.
pub open spec fn free_and_safe(s: Seq<Option<Piece>>, me: Color, f: int) -> bool {
    at(s, f, me.home_rank()) is None && !attacked(s, f, me.home_rank(), me.other())
}

/// Castling is open: the king is at home and not in check, the right and the
/// rook are there, nothing stands between, and the king crosses no attack.
pub open spec fn can_castle_kingside(p: Position, me: Color) -> bool {
    &&& holds(p.squares, 4, me.home_rank(), me, PieceKind::King)
    &&& !attacked(p.squares, 4, me.home_rank(), me.other())
    &&& p.castling.kingside_of(me)
    &&& holds(p.squares, 7, me.home_rank(), me, PieceKind::Rook)
    &&& free_and_safe(p.squares, me, 5)
    &&& free_and_safe(p.squares, me, 6)
}

pub open spec fn can_castle_queenside(p: Position, me: Color) -> bool {
    &&& holds(p.squares, 4, me.home_rank(), me, PieceKind::King)
    &&& !attacked(p.squares, 4, me.home_rank(), me.other())
    &&& p.castling.queenside_of(me)
    &&& holds(p.squares, 0, me.home_rank(), me, PieceKind::Rook)
    &&& at(p.squares, 1, me.home_rank()) is None
    &&& free_and_safe(p.squares, me, 2)
    &&& free_and_safe(p.squares, me, 3)
}

pub open spec fn home_square(me: Color, f: int) -> Square {
    Square((me.home_rank() * 8 + f) as u8)
}

pub open spec fn castling_moves(p: Position, me: Color) -> Seq<Move> {
    (if can_castle_kingside(p, me) {
        seq![Move { from: home_square(me, 4), to: home_square(me, 6), promotion: None }]
    } else {
        Seq::empty()
    }) + (if can_castle_queenside(p, me) {
        seq![Move { from: home_square(me, 4), to: home_square(me, 2), promotion: None }]
    } else {
        Seq::empty()
    })
}

/// The moves of the piece on one square, before asking about check.
pub open spec fn moves_from(p: Position, from: Square) -> Seq<Move> {
    match p.squares[from.0 as int] {
        Some(piece) => if piece.color != p.side {
            Seq::empty()
        } else {
            match piece.kind {
                PieceKind::Pawn => pawn_moves(p, from, p.side),
                PieceKind::Knight => step_moves(p.squares, from, p.side, true, 8),
                PieceKind::King => step_moves(p.squares, from, p.side, false, 8) + castling_moves(
                    p,
                    p.side,
                ),
                PieceKind::Bishop => slide_moves(p.squares, from, p.side, true, 4),
                PieceKind::Rook => slide_moves(p.squares, from, p.side, false, 4),
                PieceKind::Queen => slide_moves(p.squares, from, p.side, true, 4) + slide_moves(
                    p.squares,
                    from,
                    p.side,
                    false,
                    4,
                ),
            }
        },
        None => Seq::empty(),
    }
}

/// The moves from the first `n` squares, before asking about check.
pub open spec fn pseudo_moves(p: Position, n: nat) -> Seq<Move>
    decreases n,
{
    if n == 0 {
        Seq::empty()
    } else {
        pseudo_moves(p, (n - 1) as nat) + moves_from(p, Square((n - 1) as u8))
    }
}

pub open spec fn takes_en_passant(p: Position, mv: Move, piece: Piece) -> bool {
    piece.kind == PieceKind::Pawn && p.en_passant == Some(mv.to) && p.squares[mv.to.0 as int] is None
}

pub open spec fn put(
    s: Seq<Option<Piece>>,
    f: int,
    r: int,
    piece: Option<Piece>,
) -> Seq<Option<Piece>> {
    if on_board(f, r) {
        s.update(r * 8 + f, piece)
    } else {
        s
    }
}

/// The rook's part of castling, on a king's move of two files.
pub open spec fn rook_hop(s: Seq<Option<Piece>>, mv: Move, piece: Piece) -> Seq<Option<Piece>> {
    let delta = mv.to.on_file() - mv.from.on_file();
    let home = piece.color.home_rank();
    if piece.kind == PieceKind::King && delta == 2 {
        put(put(s, 7, home, None), 5, home, at(s, 7, home))
    } else if piece.kind == PieceKind::King && delta == -2 {
        put(put(s, 0, home, None), 3, home, at(s, 0, home))
    } else {
        s
    }
}

/// The rights left once something moved from, or to, a corner.
pub open spec fn rights_after(c: CastlingRights, sq: Square) -> CastlingRights {
    if sq.on_file() == 0 && sq.on_rank() == 0 {
        CastlingRights { white_queenside: false, ..c }
    } else if sq.on_file() == 7 && sq.on_rank() == 0 {
        CastlingRights { white_kingside: false, ..c }
    } else if sq.on_file() == 0 && sq.on_rank() == 7 {
        CastlingRights { black_queenside: false, ..c }
    } else if sq.on_file() == 7 && sq.on_rank() == 7 {
        CastlingRights { black_kingside: false, ..c }
    } else {
        c
    }
}

/// A move counter, one further. It wraps at the end of its range.
pub open spec fn bump(n: u32) -> u32 {
    if n == u32::MAX {
        0
    } else {
        (n + 1) as u32
    }
}

/// The squares after a move.
pub open spec fn squares_after(p: Position, mv: Move, piece: Piece) -> Seq<Option<Piece>> {
    let taken = if takes_en_passant(p, mv, piece) {
        put(p.squares, mv.to.on_file(), mv.to.on_rank() - piece.color.forward(), None)
    } else {
        p.squares
    };
    let landing = match mv.promotion {
        Some(kind) => Piece { color: piece.color, kind },
        None => piece,
    };
    rook_hop(taken, mv, piece).update(mv.from.0 as int, None).update(
        mv.to.0 as int,
        Some(landing),
    )
}

/// The position after a move, whether or not the move is legal. From an empty
/// square nothing happens.
pub open spec fn apply(p: Position, mv: Move) -> Position {
    match p.squares[mv.from.0 as int] {
        None => p,
        Some(piece) => {
            let me = piece.color;
            let rights = if piece.kind == PieceKind::King {
                p.castling.without(me)
            } else {
                p.castling
            };
            let jump = mv.to.on_rank() - mv.from.on_rank();
            Position {
                squares: squares_after(p, mv, piece),
                side: me.other(),
                castling: rights_after(rights_after(rights, mv.from), mv.to),
                en_passant: if piece.kind == PieceKind::Pawn && (jump == 2 || jump == -2) {
                    square_at(mv.from.on_file(), mv.from.on_rank() + me.forward())
                } else {
                    None
                },
                halfmove: if piece.kind == PieceKind::Pawn || p.squares[mv.to.0 as int] is Some {
                    0
                } else {
                    bump(p.halfmove)
                },
                fullmove: if me == Color::Black {
                    bump(p.fullmove)
                } else {
                    p.fullmove
                },
            }
        },
    }
}

/// Whether a move leaves one's own king out of check.
pub open spec fn keeps_king_safe(p: Position, mv: Move) -> bool {
    match p.squares[mv.from.0 as int] {
        Some(piece) => !in_check(apply(p, mv).squares, piece.color),
        None => false,
    }
}

/// The moves of a list that leave one's own king out of check.
pub open spec fn keep_safe(p: Position, moves: Seq<Move>) -> Seq<Move>
    decreases moves.len(),
{
    if moves.len() == 0 {
        Seq::empty()
    } else {
        let rest = keep_safe(p, moves.drop_last());
        if keeps_king_safe(p, moves.last()) {
            rest.push(moves.last())
        } else {
            rest
        }
    }
}

/// The legal moves of a position.
pub open spec fn legal_moves(p: Position) -> Seq<Move> {
    keep_safe(p, pseudo_moves(p, 64))
}

/// The moves of a list that start on one square.
pub open spec fn keep_from(moves: Seq<Move>, from: Square) -> Seq<Move>
    decreases moves.len(),
{
    if moves.len() == 0 {
        Seq::empty()
    } else {
        let rest = keep_from(moves.drop_last(), from);
        if moves.last().from == from {
            rest.push(moves.last())
        } else {
            rest
        }
    }
}

/// The piece a move takes.
pub open spec fn captured(p: Position, mv: Move, piece: Piece) -> Option<Piece> {
    if p.squares[mv.to.0 as int] is Some {
        p.squares[mv.to.0 as int]
    } else if piece.kind == PieceKind::Pawn && p.en_passant == Some(mv.to) {
        at(p.squares, mv.to.on_file(), mv.to.on_rank() - piece.color.forward())
    } else {
        None
    }
}

/// Another move of the same kind of piece to the same square.
pub open spec fn rival(p: Position, mv: Move, piece: Piece, m: Move) -> bool {
    &&& m.to == mv.to
    &&& m.from != mv.from
    &&& p.squares[m.from.0 as int] == Some(piece)
    &&& m.promotion == mv.promotion
}

/// What SAN adds to tell a move from its rivals: the file where that is
/// enough, else the rank where that is, else both.
pub open spec fn disambiguation(p: Position, mv: Move, piece: Piece) -> Seq<char> {
    let legal = legal_moves(p);
    if !exists|i: int| 0 <= i < legal.len() && rival(p, mv, piece, #[trigger] legal[i]) {
        Seq::empty()
    } else if !exists|i: int|
        0 <= i < legal.len() && rival(p, mv, piece, #[trigger] legal[i])
            && legal[i].from.on_file() == mv.from.on_file() {
        seq![file_char(mv.from.on_file())]
    } else if !exists|i: int|
        0 <= i < legal.len() && rival(p, mv, piece, #[trigger] legal[i])
            && legal[i].from.on_rank() == mv.from.on_rank() {
        seq![rank_char(mv.from.on_rank())]
    } else {
        square_name(mv.from)
    }
}

/// A move in standard algebraic notation, without the sign for check.
pub open spec fn san_body(p: Position, mv: Move, piece: Piece) -> Seq<char> {
    let delta = mv.to.on_file() - mv.from.on_file();
    let takes = p.squares[mv.to.0 as int] is Some || (piece.kind == PieceKind::Pawn && p.en_passant
        == Some(mv.to));
    let cross = if takes {
        seq!['x']
    } else {
        Seq::empty()
    };
    if piece.kind == PieceKind::King && delta == 2 {
        seq!['O', '-', 'O']
    } else if piece.kind == PieceKind::King && delta == -2 {
        seq!['O', '-', 'O', '-', 'O']
    } else {
        (if piece.kind == PieceKind::Pawn {
            if takes {
                seq![file_char(mv.from.on_file()), 'x']
            } else {
                Seq::empty()
            }
        } else {
            seq![kind_capital(piece.kind)] + disambiguation(p, mv, piece) + cross
        }) + square_name(mv.to) + (match mv.promotion {
            Some(kind) => seq!['=', kind_capital(kind)],
            None => Seq::empty(),
        })
    }
}

/// A move in standard algebraic notation.
pub open spec fn san(p: Position, mv: Move, piece: Piece) -> Seq<char> {
    let next = apply(p, mv);
    san_body(p, mv, piece) + (if in_check(next.squares, next.side) {
        if legal_moves(next).len() == 0 {
            seq!['#']
        } else {
            seq!['+']
        }
    } else {
        Seq::empty()
    })
}

/// The squares below `n` on which a bishop or a knight stands.
pub open spec fn minors(s: Seq<Option<Piece>>, n: nat) -> Seq<Square>
    decreases n,
{
    if n == 0 {
        Seq::empty()
    } else {
        let rest = minors(s, (n - 1) as nat);
        match s[n - 1] {
            Some(piece) => if piece.kind == PieceKind::Bishop || piece.kind == PieceKind::Knight {
                rest.push(Square((n - 1) as u8))
            } else {
                rest
            },
            None => rest,
        }
    }
}

pub open spec fn mates_alone(p: Option<Piece>) -> bool {
    p matches Some(piece) && (piece.kind == PieceKind::Pawn || piece.kind == PieceKind::Rook
        || piece.kind == PieceKind::Queen)
}

/// Neither side can ever mate: beside the kings there is at most one minor
/// piece, or one bishop on each side and both on squares of one shade.
pub open spec fn insufficient_material(s: Seq<Option<Piece>>) -> bool {
    let m = minors(s, 64);
    &&& !exists|i: int| 0 <= i < 64 && mates_alone(#[trigger] s[i])
    &&& m.len() <= 1 || (m.len() == 2 && {
        let (a, b) = (s[m[0].0 as int]->0, s[m[1].0 as int]->0);
        &&& a.kind == PieceKind::Bishop
        &&& b.kind == PieceKind::Bishop
        &&& a.color != b.color
        &&& (m[0].on_file() + m[0].on_rank()) % 2 == (m[1].on_file() + m[1].on_rank()) % 2
    })
}

pub open spec fn side_char(side: Color) -> char {
    match side {
        Color::White => 'w',
        Color::Black => 'b',
    }
}

/// Whether a pawn of the side to move stands ready to take en passant.
pub open spec fn en_passant_matters(p: Position, ep: Square) -> bool {
    ||| holds(p.squares, ep.on_file() - 1, ep.on_rank() - p.side.forward(), p.side, PieceKind::Pawn)
    ||| holds(p.squares, ep.on_file() + 1, ep.on_rank() - p.side.forward(), p.side, PieceKind::Pawn)
}

pub open spec fn key_char(p: Option<Piece>) -> char {
    match p {
        Some(piece) => piece_char(piece),
        None => '.',
    }
}

/// What makes two positions one for the sake of repetition: the squares read
/// from a8 to h1, the side to move, the castling rights, and the en passant
/// square where a pawn can use it.
pub open spec fn position_key(p: Position) -> Seq<char> {
    Seq::new(64, |k: int| key_char(p.squares[(7 - k / 8) * 8 + k % 8])) + seq![side_char(p.side)]
        + castling_text(p.castling) + (match p.en_passant {
        Some(ep) => if en_passant_matters(p, ep) {
            square_name(ep)
        } else {
            Seq::empty()
        },
        None => Seq::empty(),
    })
}

/// Where the game stands in a position seen `repetitions` times.
pub open spec fn status_of(p: Position, repetitions: int) -> GameStatus {
    if legal_moves(p).len() == 0 {
        if in_check(p.squares, p.side) {
            GameStatus::Checkmate { winner: p.side.other() }
        } else {
            GameStatus::Stalemate
        }
    } else if insufficient_material(p.squares) {
        GameStatus::InsufficientMaterial
    } else if repetitions >= 3 {
        GameStatus::ThreefoldRepetition
    } else if p.halfmove >= 100 {
        GameStatus::FiftyMoveRule
    } else {
        GameStatus::InProgress
    }
}

/// The text of the first `n` files of a rank in FEN, and the length of the run
/// of empty squares at its end that is still to be written.
pub open spec fn row_text(s: Seq<Option<Piece>>, r: int, n: nat) -> (Seq<char>, nat)
    decreases n,
{
    if n == 0 {
        (Seq::empty(), 0)
    } else {
        let (text, run) = row_text(s, r, (n - 1) as nat);
        match at(s, n - 1, r) {
            Some(piece) => (text + run_text(run) + seq![piece_char(piece)], 0),
            None => (text, run + 1),
        }
    }
}

pub open spec fn run_text(run: nat) -> Seq<char> {
    if run == 0 {
        Seq::empty()
    } else {
        digits(run)
    }
}

/// One rank in FEN.
pub open spec fn rank_text(s: Seq<Option<Piece>>, r: int) -> Seq<char> {
    row_text(s, r, 8).0 + run_text(row_text(s, r, 8).1)
}

/// The `n` top ranks in FEN, with a slash between two.
pub open spec fn placement_text(s: Seq<Option<Piece>>, n: nat) -> Seq<char>
    decreases n,
{
    if n == 0 {
        Seq::empty()
    } else if n == 1 {
        rank_text(s, 7)
    } else {
        placement_text(s, (n - 1) as nat) + seq!['/'] + rank_text(s, 8 - n)
    }
}

pub open spec fn en_passant_text(ep: Option<Square>) -> Seq<char> {
    match ep {
        Some(sq) => square_name(sq),
        None => seq!['-'],
    }
}

/// A position in Forsyth-Edwards notation.
pub open spec fn fen_text(p: Position) -> Seq<char> {
    placement_text(p.squares, 8) + seq![' ', side_char(p.side), ' '] + castling_text(p.castling)
        + seq![' '] + en_passant_text(p.en_passant) + seq![' '] + digits(p.halfmove as nat) + seq![
        ' ',
    ] + digits(p.fullmove as nat)
}

/// Why a move cannot be made, the first reason first.
pub open spec fn move_fault(p: Position, mv: Move) -> Option<super::board::MoveError> {
    match p.squares[mv.from.0 as int] {
        None => Some(super::board::MoveError::EmptySquare),
        Some(piece) => {
            let promotes = piece.kind == PieceKind::Pawn && mv.to.on_rank() == p.side.last_rank();
            if piece.color != p.side {
                Some(super::board::MoveError::WrongColor)
            } else if promotes != (mv.promotion is Some) || (mv.promotion is Some && !promotable(
                mv.promotion->0,
            )) {
                Some(super::board::MoveError::BadPromotion)
            } else if !legal_moves(p).contains(mv) {
                Some(super::board::MoveError::Illegal)
            } else {
                None
            }
        },
    }
}

} // verus!
