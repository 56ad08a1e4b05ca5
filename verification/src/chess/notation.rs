//! What the written record of a game tells: no two moves are written alike, the
//! moves are numbered, and what stands in quotes can be read back.

use super::board::MoveError;
use super::game::{
    escaped, escaped_char, line_after, line_fault, line_with, replay_fault, tag_lines, Line,
};
use super::geometry::{apart, can_castle, can_go, law_legal_moves_go_as_the_pieces_do, pawn_can_go};
use super::rules::{at, disambiguation, legal_moves, move_fault, rival, san_body, Position};
use super::types::{file_char, kind_capital, rank_char, Move, Piece, PieceKind, Square};
use crate::text::digits;
use vstd::prelude::*;
use vstd::string::*;

verus! {

/// Whether a move is written as one that takes.
spec fn written_as_taking(p: Position, mv: Move, piece: Piece) -> bool {
    p.squares[mv.to.0 as int] is Some || (piece.kind == PieceKind::Pawn && p.en_passant == Some(
        mv.to,
    ))
}

spec fn castles(mv: Move, piece: Piece) -> bool {
    piece.kind == PieceKind::King && apart(mv.from.on_file(), mv.to.on_file()) == 2
}

/// What a legal move is and whose piece makes it.
proof fn lemma_legal(p: Position, mv: Move)
    requires
        legal_moves(p).contains(mv),
    ensures
        can_go(p, mv),
        mv.from.valid() && mv.to.valid(),
        p.squares[mv.from.0 as int] is Some,
        p.squares[mv.from.0 as int]->0.color == p.side,
        at(p.squares, mv.from.on_file(), mv.from.on_rank()) == p.squares[mv.from.0 as int],
        at(p.squares, mv.to.on_file(), mv.to.on_rank()) == p.squares[mv.to.0 as int],
{
    law_legal_moves_go_as_the_pieces_do(p, mv);
    assert(mv.from.0 as int == mv.from.on_rank() * 8 + mv.from.on_file());
    assert(mv.to.0 as int == mv.to.on_rank() * 8 + mv.to.on_file());
}

proof fn lemma_squares_told(a: Square, b: Square)
    requires
        a.valid() && b.valid(),
        file_char(a.on_file()) == file_char(b.on_file()),
        rank_char(a.on_rank()) == rank_char(b.on_rank()),
    ensures
        a == b,
{
    assert(a.0 as int == a.on_rank() * 8 + a.on_file());
    assert(b.0 as int == b.on_rank() * 8 + b.on_file());
}

/// How a pawn's move is written.
proof fn lemma_pawn_written(p: Position, mv: Move, piece: Piece)
    requires
        piece.kind == PieceKind::Pawn,
        mv.from.valid() && mv.to.valid(),
    ensures
        ({
            let t = san_body(p, mv, piece);
            let takes = written_as_taking(p, mv, piece);
            let k: int = if takes {
                2
            } else {
                0
            };
            &&& t.len() == k + 2 + (if mv.promotion is Some {
                2int
            } else {
                0
            })
            &&& takes ==> t[0] == file_char(mv.from.on_file()) && t[1] == 'x'
            &&& t[k] == file_char(mv.to.on_file()) && t[k + 1] == rank_char(mv.to.on_rank())
            &&& mv.promotion is Some ==> t[k + 3] == kind_capital(mv.promotion->0)
        }),
{
}

/// How the move of a piece is written.
proof fn lemma_piece_written(p: Position, mv: Move, piece: Piece)
    requires
        piece.kind != PieceKind::Pawn,
        !castles(mv, piece),
        mv.promotion is None,
        mv.from.valid() && mv.to.valid(),
    ensures
        ({
            let t = san_body(p, mv, piece);
            let how = disambiguation(p, mv, piece);
            let k: int = if p.squares[mv.to.0 as int] is Some {
                1
            } else {
                0
            };
            &&& t.len() == 1 + how.len() + k + 2
            &&& t[0] == kind_capital(piece.kind)
            &&& t.subrange(1, 1 + how.len() as int) == how
            &&& t[t.len() - 2] == file_char(mv.to.on_file())
            &&& t[t.len() - 1] == rank_char(mv.to.on_rank())
        }),
{
    let t = san_body(p, mv, piece);
    let how = disambiguation(p, mv, piece);
    assert(t.subrange(1, 1 + how.len() as int) =~= how);
}

/// Of two pawns that get to one square from one file, there is one.
proof fn lemma_one_pawn(p: Position, mv: Move, nv: Move)
    requires
        legal_moves(p).contains(mv),
        legal_moves(p).contains(nv),
        p.squares[mv.from.0 as int]->0.kind == PieceKind::Pawn,
        p.squares[nv.from.0 as int]->0.kind == PieceKind::Pawn,
        mv.to == nv.to,
        mv.from.on_file() == nv.from.on_file(),
    ensures
        mv.from == nv.from,
{
    lemma_legal(p, mv);
    lemma_legal(p, nv);
    assert(mv.from.0 as int == mv.from.on_rank() * 8 + mv.from.on_file());
    assert(nv.from.0 as int == nv.from.on_rank() * 8 + nv.from.on_file());
    assert(pawn_can_go(p, mv) && pawn_can_go(p, nv));
}

/// A pawn that takes nothing goes straight on.
proof fn lemma_straight_on(p: Position, mv: Move)
    requires
        legal_moves(p).contains(mv),
        p.squares[mv.from.0 as int]->0.kind == PieceKind::Pawn,
        !written_as_taking(p, mv, p.squares[mv.from.0 as int]->0),
    ensures
        mv.from.on_file() == mv.to.on_file(),
{
    lemma_legal(p, mv);
    assert(pawn_can_go(p, mv));
}

/// A king that goes two files castles, from its own square.
proof fn lemma_castling_told(p: Position, mv: Move, nv: Move)
    requires
        legal_moves(p).contains(mv),
        legal_moves(p).contains(nv),
        castles(mv, p.squares[mv.from.0 as int]->0),
        castles(nv, p.squares[nv.from.0 as int]->0),
        (mv.to.on_file() > mv.from.on_file()) == (nv.to.on_file() > nv.from.on_file()),
    ensures
        mv == nv,
{
    lemma_legal(p, mv);
    lemma_legal(p, nv);
    assert(can_castle(p, mv) && can_castle(p, nv));
    lemma_squares_told(mv.from, nv.from);
    lemma_squares_told(mv.to, nv.to);
}

/// Where two pieces of a kind can get to one square, what is written tells them
/// apart.
proof fn lemma_pieces_told_apart(p: Position, mv: Move, nv: Move, piece: Piece)
    requires
        legal_moves(p).contains(mv),
        legal_moves(p).contains(nv),
        p.squares[mv.from.0 as int] == Some(piece),
        p.squares[nv.from.0 as int] == Some(piece),
        mv.to == nv.to,
        mv.promotion == nv.promotion,
        disambiguation(p, mv, piece) == disambiguation(p, nv, piece),
    ensures
        mv == nv,
{
    lemma_legal(p, mv);
    lemma_legal(p, nv);
    if mv.from != nv.from {
        let legal = legal_moves(p);
        let i = choose|i: int| 0 <= i < legal.len() && legal[i] == mv;
        let j = choose|j: int| 0 <= j < legal.len() && legal[j] == nv;
        assert(rival(p, mv, piece, legal[j]));
        assert(rival(p, nv, piece, legal[i]));
        let a = disambiguation(p, mv, piece);
        let b = disambiguation(p, nv, piece);
        assert(a.len() == b.len() && a.len() > 0);
        assert(a[0] == b[0]);
        if a.len() == 1 {
            assert(a[0] == file_char(mv.from.on_file()) || a[0] == rank_char(mv.from.on_rank()));
            assert(b[0] == file_char(nv.from.on_file()) || b[0] == rank_char(nv.from.on_rank()));
        } else {
            assert(a[1] == b[1]);
            lemma_squares_told(mv.from, nv.from);
        }
        assert(false);
    }
}

/// No two legal moves are written alike.
pub proof fn law_no_two_moves_are_written_alike(p: Position, mv: Move, nv: Move)
    requires
        legal_moves(p).contains(mv),
        legal_moves(p).contains(nv),
        san_body(p, mv, p.squares[mv.from.0 as int]->0) == san_body(
            p,
            nv,
            p.squares[nv.from.0 as int]->0,
        ),
    ensures
        mv == nv,
{
    let a = p.squares[mv.from.0 as int]->0;
    let b = p.squares[nv.from.0 as int]->0;
    let (s, t) = (san_body(p, mv, a), san_body(p, nv, b));
    lemma_legal(p, mv);
    lemma_legal(p, nv);
    if castles(mv, a) {
        assert(s[0] == 'O');
        assert(s.len() == 3 || s.len() == 5);
    }
    if castles(nv, b) {
        assert(t[0] == 'O');
        assert(t.len() == 3 || t.len() == 5);
    }
    if a.kind == PieceKind::Pawn {
        lemma_pawn_written(p, mv, a);
    } else if !castles(mv, a) {
        lemma_piece_written(p, mv, a);
    }
    if b.kind == PieceKind::Pawn {
        lemma_pawn_written(p, nv, b);
    } else if !castles(nv, b) {
        lemma_piece_written(p, nv, b);
    }
    if castles(mv, a) || castles(nv, b) {
        assert(castles(mv, a) && castles(nv, b));
        lemma_castling_told(p, mv, nv);
    } else if a.kind == PieceKind::Pawn || b.kind == PieceKind::Pawn {
        assert(a.kind == PieceKind::Pawn && b.kind == PieceKind::Pawn);
        let takes = written_as_taking(p, mv, a);
        assert(takes == written_as_taking(p, nv, b));
        lemma_squares_told(mv.to, nv.to);
        if !takes {
            lemma_straight_on(p, mv);
            lemma_straight_on(p, nv);
        }
        lemma_one_pawn(p, mv, nv);
        assert(mv.promotion == nv.promotion);
    } else {
        assert(a.kind == b.kind);
        lemma_squares_told(mv.to, nv.to);
        lemma_pieces_told_apart(p, mv, nv, a);
    }
}

/// White's moves are numbered from one, and Black's have no number of their
/// own.
pub proof fn law_moves_are_numbered(line: Seq<char>, san: Seq<char>, k: nat)
    ensures
        line_with(line, san, 2 * k as int) == line + digits(k + 1) + ". "@ + san + seq![' '],
        line_with(line, san, 2 * k as int + 1) == line + san + seq![' '],
{
    reveal_strlit(". ");
    assert(line + (digits(k + 1) + ". "@) =~= line + digits(k + 1) + ". "@);
    assert(line + Seq::<char>::empty() =~= line);
}

/// Each tag has a line of its own, with its name and what it says in quotes.
pub proof fn law_every_tag_has_a_line(
    tags: Seq<(Seq<char>, Seq<char>)>,
    name: Seq<char>,
    said: Seq<char>,
)
    ensures
        tag_lines(tags.push((name, said)), tags.len() + 1) == tag_lines(tags, tags.len()) + "["@
            + name + " \""@ + escaped(said) + "\"]\n"@,
        tag_lines(tags, 0) == Seq::<char>::empty(),
{
    lemma_earlier_tags(tags, (name, said), tags.len());
}

proof fn lemma_earlier_tags(
    tags: Seq<(Seq<char>, Seq<char>)>,
    tag: (Seq<char>, Seq<char>),
    n: nat,
)
    requires
        n <= tags.len(),
    ensures
        tag_lines(tags.push(tag), n) == tag_lines(tags, n),
    decreases n,
{
    if n > 0 {
        lemma_earlier_tags(tags, tag, (n - 1) as nat);
    }
}

/// What is read back from quotes: a backslash stands for what follows it.
pub open spec fn read_back(s: Seq<char>) -> Seq<char>
    decreases s.len(),
{
    if s.len() == 0 {
        Seq::empty()
    } else if s[0] == '\\' && s.len() > 1 {
        seq![s[1]] + read_back(s.skip(2))
    } else {
        seq![s[0]] + read_back(s.skip(1))
    }
}

/// Whether a text holds no quote that would end it.
pub open spec fn stays_open(s: Seq<char>) -> bool
    decreases s.len(),
{
    if s.len() == 0 {
        true
    } else if s[0] == '\\' {
        s.len() > 1 && stays_open(s.skip(2))
    } else {
        s[0] != '"' && stays_open(s.skip(1))
    }
}

/// What is put in quotes is read back as it was, and does not end them.
pub proof fn law_quoted_texts_read_back(s: Seq<char>)
    ensures
        read_back(escaped(s)) == s,
        stays_open(escaped(s)),
    decreases s.len(),
{
    if s.len() == 0 {
        assert(read_back(escaped(s)) =~= s);
    } else {
        let rest = s.skip(1);
        law_quoted_texts_read_back(rest);
        assert(seq![s[0]] + rest =~= s);
        lemma_escaped_in_front(s[0], rest);
        lemma_front_read(s[0], escaped(rest));
    }
}

proof fn lemma_escaped_in_front(c: char, s: Seq<char>)
    ensures
        escaped(seq![c] + s) == escaped_char(c) + escaped(s),
    decreases s.len(),
{
    let all = seq![c] + s;
    let front = all.drop_last();
    assert(escaped(all) == escaped(front) + escaped_char(all.last()));
    if s.len() == 0 {
        assert(front =~= Seq::<char>::empty());
        assert(escaped(front) =~= Seq::<char>::empty());
        assert(escaped(s) =~= Seq::<char>::empty());
        assert(all.last() == c);
    } else {
        assert(front =~= seq![c] + s.drop_last());
        lemma_escaped_in_front(c, s.drop_last());
        assert(all.last() == s.last());
        assert(escaped(s) == escaped(s.drop_last()) + escaped_char(s.last()));
    }
    assert(escaped(all) =~= escaped_char(c) + escaped(s));
}

proof fn lemma_front_read(c: char, rest: Seq<char>)
    ensures
        read_back(escaped_char(c) + rest) == seq![c] + read_back(rest),
        stays_open(escaped_char(c) + rest) == stays_open(rest),
{
    let all = escaped_char(c) + rest;
    if c == '\\' || c == '"' {
        assert(all.skip(2) =~= rest);
    } else {
        assert(all.skip(1) =~= rest);
    }
}

/// Why a move is refused: there is no piece where it starts, the piece is not
/// the mover's, or it goes otherwise than the pieces do. None that is legal is.
pub proof fn law_why_a_move_is_refused(p: Position, mv: Move)
    requires
        p.valid(),
    ensures
        p.squares[mv.from.0 as int] is None ==> move_fault(p, mv) == Some(MoveError::EmptySquare),
        p.squares[mv.from.0 as int] is Some && p.squares[mv.from.0 as int]->0.color != p.side
            ==> move_fault(p, mv) == Some(MoveError::WrongColor),
        move_fault(p, mv) is None <==> legal_moves(p).contains(mv),
        move_fault(p, mv) == Some(MoveError::BadPromotion) && p.squares[mv.from.0 as int]->0.kind
            != PieceKind::Pawn ==> mv.promotion is Some,
        move_fault(p, mv) == Some(MoveError::Illegal) ==> !legal_moves(p).contains(mv),
{
    super::listed::law_legal_moves_can_be_made(p, mv);
}

/// A list of moves is refused at the first that cannot be made.
pub proof fn law_replaying_stops_at_the_first_fault(
    start: Line,
    moves: Seq<Move>,
    mv: Move,
    later: Seq<Move>,
)
    requires
        replay_fault(start, moves) is None,
    ensures
        line_fault(line_after(start, moves), mv) is None ==> replay_fault(start, moves.push(mv))
            is None,
        line_fault(line_after(start, moves), mv) is Some ==> replay_fault(
            start,
            moves.push(mv) + later,
        ) == Some((moves.len() as int, line_fault(line_after(start, moves), mv)->0)),
    decreases later.len(),
{
    assert(moves.push(mv).drop_last() =~= moves);
    if later.len() > 0 {
        assert((moves.push(mv) + later).drop_last() =~= moves.push(mv) + later.drop_last());
        law_replaying_stops_at_the_first_fault(start, moves, mv, later.drop_last());
    } else {
        assert(moves.push(mv) + later =~= moves.push(mv));
    }
}

} // verus!
