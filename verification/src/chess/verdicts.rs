//! What becomes of a position: what a move does to it, when a game on the board
//! is over, and who has won.

use super::game::{line_next, occurrences, status_token, Line};
use super::rules::{
    apply, captured, in_check, insufficient_material, legal_moves, minors, position_key, san,
    status_of, takes_en_passant, Position,
};
use super::types::{Color, GameStatus, Move, Piece, PieceKind, Square};
use crate::game::{board_result, result_token};
use vstd::prelude::*;
use vstd::string::*;

verus! {

/// Who is in check and cannot move is mated, and the other side has won; who is
/// not in check and cannot move is stalemated. Otherwise a game goes on, unless
/// nobody can mate any more, the position stood three times, or fifty moves of
/// each side have done nothing.
pub proof fn law_how_a_game_stands(p: Position, times: int)
    ensures
        ({
            let stuck = legal_moves(p).len() == 0;
            let checked = in_check(p.squares, p.side);
            let status = status_of(p, times);
            &&& stuck && checked && p.side == Color::White <==> status == (GameStatus::Checkmate {
                winner: Color::Black,
            })
            &&& stuck && checked && p.side == Color::Black <==> status == (GameStatus::Checkmate {
                winner: Color::White,
            })
            &&& stuck && !checked <==> status == GameStatus::Stalemate
            &&& status == GameStatus::InsufficientMaterial <==> !stuck && insufficient_material(
                p.squares,
            )
            &&& status == GameStatus::ThreefoldRepetition ==> times >= 3
            &&& status == GameStatus::FiftyMoveRule ==> p.halfmove >= 100
            &&& status == GameStatus::InProgress <==> !stuck && !insufficient_material(p.squares)
                && times < 3 && p.halfmove < 100
        }),
{
}

/// The notation's token for a position is that of the result it stands for.
pub proof fn law_tokens_follow_the_result(status: GameStatus)
    ensures
        status_token(status) == result_token(board_result(status)),
{
}

/// Among pieces there are no more minor ones than squares looked at, and those
/// listed are minor.
proof fn lemma_minors(s: Seq<Option<Piece>>, n: nat)
    requires
        n <= 64,
        n <= s.len(),
    ensures
        minors(s, n).len() <= n,
        forall|i: int|
            0 <= i < minors(s, n).len() ==> (#[trigger] minors(s, n)[i]).0 < n && s[minors(
                s,
                n,
            )[i].0 as int] is Some && (s[minors(s, n)[i].0 as int]->0.kind == PieceKind::Bishop
                || s[minors(s, n)[i].0 as int]->0.kind == PieceKind::Knight),
        forall|k: int|
            0 <= k < n && (#[trigger] s[k]) is Some && (s[k]->0.kind == PieceKind::Bishop
                || s[k]->0.kind == PieceKind::Knight) ==> minors(s, n).contains(Square(k as u8)),
        forall|i: int, j: int|
            0 <= i < j < minors(s, n).len() ==> (#[trigger] minors(s, n)[i]).0 < (
            #[trigger] minors(s, n)[j]).0,
    decreases n,
{
    if n > 0 {
        let m = (n - 1) as nat;
        lemma_minors(s, m);
        let (few, all) = (minors(s, m), minors(s, n));
        assert forall|k: int|
            0 <= k < n && (#[trigger] s[k]) is Some && (s[k]->0.kind == PieceKind::Bishop
                || s[k]->0.kind == PieceKind::Knight) implies all.contains(Square(k as u8)) by {
            if k < m {
                assert(few.contains(Square(k as u8)));
                let i = choose|i: int| 0 <= i < few.len() && few[i] == Square(k as u8);
                assert(all[i] == Square(k as u8));
            } else {
                assert(all[few.len() as int] == Square(k as u8));
            }
        }
    }
}

/// A pawn, a rook or a queen on either side is enough to go on playing.
pub proof fn law_pawns_rooks_and_queens_can_mate(s: Seq<Option<Piece>>, k: int)
    requires
        s.len() == 64,
        0 <= k < 64,
        s[k] is Some,
        s[k]->0.kind == PieceKind::Pawn || s[k]->0.kind == PieceKind::Rook || s[k]->0.kind
            == PieceKind::Queen,
    ensures
        !insufficient_material(s),
{
    assert(super::rules::mates_alone(s[k]));
}

/// Kings alone cannot mate, nor can a king with a single knight or bishop.
pub proof fn law_one_minor_piece_cannot_mate(s: Seq<Option<Piece>>, k: int)
    requires
        s.len() == 64,
        0 <= k < 64,
        forall|i: int|
            0 <= i < 64 && i != k ==> ((#[trigger] s[i]) is None || s[i]->0.kind
                == PieceKind::King),
        s[k] is None || s[k]->0.kind == PieceKind::King || s[k]->0.kind == PieceKind::Bishop
            || s[k]->0.kind == PieceKind::Knight,
    ensures
        insufficient_material(s),
{
    lemma_minors(s, 64);
    let m = minors(s, 64);
    if m.len() >= 2 {
        assert(m[0].0 < m[1].0);
        assert(s[m[0].0 as int] is Some);
        assert(s[m[1].0 as int] is Some);
    }
    assert forall|i: int| 0 <= i < 64 implies !super::rules::mates_alone(#[trigger] s[i]) by {
        if i != k {
            assert(s[i] is None || s[i]->0.kind == PieceKind::King);
        }
    }
}

/// Two minor pieces are enough to go on playing, unless they are bishops, one on
/// each side, on squares of one colour.
pub proof fn law_two_minor_pieces_may_mate(s: Seq<Option<Piece>>, j: int, k: int)
    requires
        s.len() == 64,
        0 <= j < k < 64,
        s[j] is Some && (s[j]->0.kind == PieceKind::Bishop || s[j]->0.kind == PieceKind::Knight),
        s[k] is Some && (s[k]->0.kind == PieceKind::Bishop || s[k]->0.kind == PieceKind::Knight),
        forall|i: int|
            0 <= i < 64 && i != j && i != k ==> ((#[trigger] s[i]) is None || s[i]->0.kind
                == PieceKind::King),
    ensures
        insufficient_material(s) <==> {
            &&& s[j]->0.kind == PieceKind::Bishop && s[k]->0.kind == PieceKind::Bishop
            &&& s[j]->0.color != s[k]->0.color
            &&& (j % 8 + j / 8) % 2 == (k % 8 + k / 8) % 2
        },
{
    lemma_minors(s, 64);
    let m = minors(s, 64);
    assert(m.contains(Square(j as u8)) && m.contains(Square(k as u8)));
    let x = choose|x: int| 0 <= x < m.len() && m[x] == Square(j as u8);
    let y = choose|y: int| 0 <= y < m.len() && m[y] == Square(k as u8);
    if y < x {
        assert(m[y].0 < m[x].0);
    }
    if m.len() >= 3 {
        assert(m[0].0 < m[1].0);
        assert(m[1].0 < m[2].0);
        assert(s[m[0].0 as int] is Some);
        assert(s[m[1].0 as int] is Some);
        assert(s[m[2].0 as int] is Some);
    }
    assert(m.len() == 2);
    assert(x == 0 && y == 1);
    assert forall|i: int| 0 <= i < 64 implies !super::rules::mates_alone(#[trigger] s[i]) by {
        if i != j && i != k {
            assert(s[i] is None || s[i]->0.kind == PieceKind::King);
        }
    }
}

/// Three minor pieces are enough to go on playing.
pub proof fn law_three_minor_pieces_may_mate(s: Seq<Option<Piece>>, i: int, j: int, k: int)
    requires
        s.len() == 64,
        0 <= i < j < k < 64,
        s[i] is Some && (s[i]->0.kind == PieceKind::Bishop || s[i]->0.kind == PieceKind::Knight),
        s[j] is Some && (s[j]->0.kind == PieceKind::Bishop || s[j]->0.kind == PieceKind::Knight),
        s[k] is Some && (s[k]->0.kind == PieceKind::Bishop || s[k]->0.kind == PieceKind::Knight),
    ensures
        !insufficient_material(s),
{
    lemma_minors(s, 64);
    let m = minors(s, 64);
    assert(m.contains(Square(i as u8)));
    assert(m.contains(Square(j as u8)));
    assert(m.contains(Square(k as u8)));
    if m.len() <= 2 {
        let x = choose|x: int| 0 <= x < m.len() && m[x] == Square(i as u8);
        let y = choose|y: int| 0 <= y < m.len() && m[y] == Square(j as u8);
        let z = choose|z: int| 0 <= z < m.len() && m[z] == Square(k as u8);
        assert(x != y && y != z && x != z);
    }
}

/// The turn changes with every move. The count towards the fifty moves starts
/// over with every capture and every pawn's move, and grows by one with any
/// other; the move number grows when Black has moved.
pub proof fn law_every_move_is_counted(p: Position, mv: Move, piece: Piece)
    requires
        p.squares[mv.from.0 as int] == Some(piece),
        p.halfmove < u32::MAX,
        p.fullmove < u32::MAX,
    ensures
        ({
            let next = apply(p, mv);
            &&& next.side == piece.color.other()
            &&& piece.color == Color::White ==> next.side == Color::Black && next.fullmove
                == p.fullmove
            &&& piece.color == Color::Black ==> next.side == Color::White && next.fullmove
                == p.fullmove + 1
            &&& piece.kind == PieceKind::Pawn || p.squares[mv.to.0 as int] is Some
                ==> next.halfmove == 0
            &&& piece.kind != PieceKind::Pawn && p.squares[mv.to.0 as int] is None
                ==> next.halfmove == p.halfmove + 1
        }),
{
}

/// A move that does not castle and takes nothing in passing leaves its square,
/// puts the piece, or what the pawn became, on the other, and touches nothing
/// else.
pub proof fn law_a_move_moves_one_piece(p: Position, mv: Move, piece: Piece, k: int)
    requires
        p.valid(),
        mv.valid(),
        mv.from != mv.to,
        p.squares[mv.from.0 as int] == Some(piece),
        !takes_en_passant(p, mv, piece),
        piece.kind == PieceKind::King ==> -1 <= mv.to.0 as int % 8 - mv.from.0 as int % 8 <= 1,
        0 <= k < 64,
    ensures
        ({
            let s = apply(p, mv).squares;
            &&& s.len() == 64
            &&& s[mv.from.0 as int] is None
            &&& mv.promotion is None ==> s[mv.to.0 as int] == Some(piece)
            &&& mv.promotion is Some ==> s[mv.to.0 as int] == Some(
                Piece { color: piece.color, kind: mv.promotion->0 },
            )
            &&& k != mv.from.0 && k != mv.to.0 ==> s[k] == p.squares[k]
        }),
{
}

/// A pawn that takes in passing removes the pawn beside it, and nothing else but
/// itself from its square.
pub proof fn law_taking_in_passing_removes_the_pawn_passed(
    p: Position,
    mv: Move,
    piece: Piece,
    k: int,
)
    requires
        p.valid(),
        mv.valid(),
        p.squares[mv.from.0 as int] == Some(piece),
        piece.kind == PieceKind::Pawn,
        mv.promotion is None,
        p.en_passant == Some(mv.to),
        p.squares[mv.to.0 as int] is None,
        mv.from.0 as int % 8 != mv.to.0 as int % 8,
        piece.color == Color::White ==> mv.to.0 >= 8,
        piece.color == Color::Black ==> mv.to.0 < 56,
        0 <= k < 64,
    ensures
        ({
            let s = apply(p, mv).squares;
            let passed = if piece.color == Color::White {
                mv.to.0 - 8
            } else {
                mv.to.0 + 8
            };
            &&& s[mv.from.0 as int] is None
            &&& s[mv.to.0 as int] == Some(piece)
            &&& passed != mv.from.0 ==> s[passed] is None
            &&& captured(p, mv, piece) == p.squares[passed]
            &&& k != mv.from.0 && k != mv.to.0 && k != passed ==> s[k] == p.squares[k]
        }),
{
    let passed = if piece.color == Color::White {
        mv.to.0 - 8
    } else {
        mv.to.0 + 8
    };
    assert(passed % 8 == mv.to.0 as int % 8);
    assert((mv.to.on_rank() - piece.color.forward()) * 8 + mv.to.on_file() == passed);
}

/// A king that castles goes two files towards its rook, which comes to stand on
/// the king's other side; nothing else moves.
pub proof fn law_castling_moves_king_and_rook(p: Position, mv: Move, color: Color, k: int)
    requires
        p.valid(),
        ({
            let home: int = if color == Color::White {
                0
            } else {
                56
            };
            &&& mv.promotion is None
            &&& mv.from.0 == home + 4
            &&& mv.to.0 == home + 6 || mv.to.0 == home + 2
            &&& p.squares[home + 4] == Some(Piece { color, kind: PieceKind::King })
        }),
        0 <= k < 64,
    ensures
        ({
            let home: int = if color == Color::White {
                0
            } else {
                56
            };
            let s = apply(p, mv).squares;
            let (corner, beside) = if mv.to.0 == home + 6 {
                (home + 7, home + 5)
            } else {
                (home, home + 3)
            };
            &&& s[mv.to.0 as int] == Some(Piece { color, kind: PieceKind::King })
            &&& s[home + 4] is None
            &&& s[beside] == p.squares[corner]
            &&& s[corner] is None
            &&& k != mv.to.0 && k != home + 4 && k != beside && k != corner ==> s[k]
                == p.squares[k]
        }),
{
}

/// The right to castle goes with the first move of the king, on both wings, and
/// with the rook that moves from its corner or is taken there, on that wing. It
/// never comes back.
pub proof fn law_castling_rights_only_go(p: Position, mv: Move, piece: Piece)
    requires
        mv.valid(),
        p.squares[mv.from.0 as int] == Some(piece),
    ensures
        ({
            let (c, n) = (p.castling, apply(p, mv).castling);
            let king = piece.kind == PieceKind::King;
            let touched = |sq: int| mv.from.0 == sq || mv.to.0 == sq;
            &&& n.white_kingside <==> c.white_kingside && !(king && piece.color == Color::White)
                && !touched(7)
            &&& n.white_queenside <==> c.white_queenside && !(king && piece.color == Color::White)
                && !touched(0)
            &&& n.black_kingside <==> c.black_kingside && !(king && piece.color == Color::Black)
                && !touched(63)
            &&& n.black_queenside <==> c.black_queenside && !(king && piece.color == Color::Black)
                && !touched(56)
        }),
{
}

/// A pawn can be taken in passing right after it went two squares, on the square
/// between, and at no other time.
pub proof fn law_only_a_double_step_can_be_taken_in_passing(p: Position, mv: Move, piece: Piece)
    requires
        mv.valid(),
        p.squares[mv.from.0 as int] == Some(piece),
        mv.from.0 as int % 8 == mv.to.0 as int % 8,
    ensures
        piece.kind == PieceKind::Pawn && piece.color == Color::White && mv.to.0 == mv.from.0 + 16
            ==> apply(p, mv).en_passant == Some(Square((mv.from.0 + 8) as u8)),
        piece.kind == PieceKind::Pawn && piece.color == Color::Black && mv.to.0 + 16 == mv.from.0
            ==> apply(p, mv).en_passant == Some(Square((mv.from.0 - 8) as u8)),
        piece.kind != PieceKind::Pawn || (mv.to.0 != mv.from.0 + 16 && mv.to.0 + 16 != mv.from.0)
            ==> apply(p, mv).en_passant is None,
{
}

/// How often a position stood is counted one by one.
pub proof fn law_repetitions_are_counted(keys: Seq<Seq<char>>, key: Seq<char>, other: Seq<char>)
    ensures
        occurrences(Seq::empty(), key) == 0,
        occurrences(keys.push(key), key) == occurrences(keys, key) + 1,
        other != key ==> occurrences(keys.push(other), key) == occurrences(keys, key),
{
    assert(keys.push(key).drop_last() =~= keys);
    assert(keys.push(other).drop_last() =~= keys);
}

/// A move adds the position it leads to to those that stood. After a capture or a
/// pawn's move nothing that stood before can come back, and the count starts
/// over.
pub proof fn law_positions_are_remembered(l: Line, mv: Move, piece: Piece)
    requires
        l.pos.squares[mv.from.0 as int] == Some(piece),
        l.pos.halfmove < u32::MAX,
    ensures
        ({
            let next = line_next(l, mv);
            let key = position_key(apply(l.pos, mv));
            let fresh = piece.kind == PieceKind::Pawn || l.pos.squares[mv.to.0 as int] is Some;
            &&& next.pos == apply(l.pos, mv)
            &&& fresh ==> next.seen == seq![key]
            &&& !fresh ==> next.seen == l.seen.push(key)
            &&& next.status == status_of(next.pos, occurrences(next.seen, key) as int)
        }),
{
    let next = line_next(l, mv);
    let key = position_key(apply(l.pos, mv));
    assert(Seq::<Seq<char>>::empty().push(key) =~= seq![key]);
}

/// A move is written with a sign of mate exactly where it mates, and with a sign
/// of check exactly where it only checks.
pub proof fn law_checks_and_mates_are_marked(p: Position, mv: Move, piece: Piece)
    ensures
        ({
            let text = san(p, mv, piece);
            let next = apply(p, mv);
            let checks = in_check(next.squares, next.side);
            let stuck = legal_moves(next).len() == 0;
            let body = super::rules::san_body(p, mv, piece);
            &&& checks && stuck ==> text == body.push('#')
            &&& checks && !stuck ==> text == body.push('+')
            &&& !checks ==> text == body
        }),
{
    let body = super::rules::san_body(p, mv, piece);
    assert(body + seq!['#'] =~= body.push('#'));
    assert(body + seq!['+'] =~= body.push('+'));
    assert(body + Seq::<char>::empty() =~= body);
}

} // verus!
