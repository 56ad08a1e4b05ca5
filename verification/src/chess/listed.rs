//! What the lists of moves hold: whose they are, where they end, what becomes
//! of pawns, and that no move is listed twice.

use super::game::{line_fault, Line};
use super::rules::{
    castling_moves, holds, home_square, keep_from, keep_safe, keeps_king_safe, king_step,
    knight_step, legal_moves, move_fault, moves_from, own_piece, pawn_advances, pawn_arrivals,
    pawn_captures, pawn_moves, pseudo_moves, ray_moves, slide_moves, slide_step, step_moves,
    Position,
};
use super::types::{promotable, square_at, GameStatus, Move, Piece, PieceKind, Square};
use vstd::prelude::*;

verus! {

/// Whether no piece stands where a pawn could take en passant.
pub open spec fn en_passant_free(p: Position) -> bool {
    p.en_passant matches Some(ep) ==> p.squares[ep.0 as int] is None
}

/// Whether the side to move has no more than one king.
pub open spec fn one_king(p: Position) -> bool {
    let king = Some(Piece { color: p.side, kind: PieceKind::King });
    forall|i: int, j: int|
        #![trigger p.squares[i], p.squares[j]]
        0 <= i < 64 && 0 <= j < 64 && p.squares[i] == king && p.squares[j] == king ==> i == j
}

/// Whether a move is by a pawn to the last rank.
pub open spec fn promotes(p: Position, mv: Move) -> bool {
    &&& p.squares[mv.from.0 as int] == Some(Piece { color: p.side, kind: PieceKind::Pawn })
    &&& mv.to.on_rank() == p.side.last_rank()
}

/// Whether a move starts on a piece of the side to move, does not end on one,
/// and promotes just where a pawn comes to the last rank.
pub open spec fn fits(p: Position, mv: Move) -> bool {
    &&& mv.valid()
    &&& own_piece(p.squares[mv.from.0 as int], p.side)
    &&& en_passant_free(p) ==> !own_piece(p.squares[mv.to.0 as int], p.side)
    &&& promotes(p, mv) <==> mv.promotion is Some
    &&& mv.promotion matches Some(kind) ==> promotable(kind)
}

pub open spec fn all_fit(p: Position, ms: Seq<Move>) -> bool {
    forall|i: int| 0 <= i < ms.len() ==> fits(p, #[trigger] ms[i])
}

/// Whether a list has, with a promotion, all four.
pub open spec fn all_four(ms: Seq<Move>) -> bool {
    forall|i: int, kind: PieceKind|
        #![trigger ms[i], promotable(kind)]
        0 <= i < ms.len() && ms[i].promotion is Some && promotable(kind) ==> ms.contains(
            Move { promotion: Some(kind), ..ms[i] },
        )
}

/// How far one has come in a direction after some steps.
spec fn far(d: int, i: int) -> int {
    if d > 0 {
        i
    } else if d < 0 {
        -i
    } else {
        0
    }
}

/// Whether a square is so many files and ranks from another.
spec fn off(from: Square, to: Square, d: (int, int)) -> bool {
    to.on_file() == from.on_file() + d.0 && to.on_rank() == from.on_rank() + d.1
}

/// A square is found by its file and its rank.
proof fn lemma_square(f: int, r: int)
    ensures
        square_at(f, r) matches Some(sq) ==> sq.valid() && sq.on_file() == f && sq.on_rank() == r,
{
}

spec fn either_step(knight: bool, j: int) -> (int, int) {
    if knight {
        knight_step(j)
    } else {
        king_step(j)
    }
}

proof fn lemma_steps_differ(knight: bool, i: int, j: int)
    requires
        0 <= i < j < 8,
    ensures
        either_step(knight, i) != either_step(knight, j),
{
}

/// A knight's or a king's steps, one by one.
proof fn lemma_step_moves(p: Position, from: Square, knight: bool, n: nat)
    requires
        p.valid(),
        from.valid(),
        n <= 8,
    ensures
        ({
            let ms = step_moves(p.squares, from, p.side, knight, n);
            &&& ms.no_duplicates()
            &&& forall|i: int|
                0 <= i < ms.len() ==> {
                    &&& (#[trigger] ms[i]).from == from
                    &&& ms[i].promotion is None
                    &&& ms[i].to.valid()
                    &&& !own_piece(p.squares[ms[i].to.0 as int], p.side)
                    &&& exists|j: int|
                        0 <= j < n && off(from, ms[i].to, #[trigger] either_step(knight, j))
                }
        }),
    decreases n,
{
    let ms = step_moves(p.squares, from, p.side, knight, n);
    if n > 0 {
        let m = (n - 1) as nat;
        lemma_step_moves(p, from, knight, m);
        let rest = step_moves(p.squares, from, p.side, knight, m);
        let d = either_step(knight, n - 1);
        lemma_square(from.on_file() + d.0, from.on_rank() + d.1);
        assert forall|i: int| 0 <= i < ms.len() implies {
            &&& (#[trigger] ms[i]).from == from
            &&& ms[i].promotion is None
            &&& ms[i].to.valid()
            &&& !own_piece(p.squares[ms[i].to.0 as int], p.side)
            &&& exists|j: int| 0 <= j < n && off(from, ms[i].to, #[trigger] either_step(knight, j))
        } by {
            if i < rest.len() {
                assert(ms[i] == rest[i]);
                let j = choose|j: int|
                    0 <= j < m && off(from, rest[i].to, #[trigger] either_step(knight, j));
                assert(off(from, ms[i].to, either_step(knight, j)));
            } else {
                assert(off(from, ms[i].to, either_step(knight, n - 1)));
            }
        }
        if ms.len() > rest.len() {
            assert forall|i: int| 0 <= i < rest.len() implies rest[i] != ms.last() by {
                let j = choose|j: int|
                    0 <= j < m && off(from, rest[i].to, #[trigger] either_step(knight, j));
                lemma_steps_differ(knight, j, n - 1);
            }
            assert(ms =~= rest.push(ms.last()));
        }
    }
}

spec fn unit(d: (int, int)) -> bool {
    -1 <= d.0 <= 1 && -1 <= d.1 <= 1 && d != (0int, 0int)
}

/// A slider's moves along one line, `k` squares out and more.
proof fn lemma_ray_moves(p: Position, from: Square, d: (int, int), k: int, n: nat)
    requires
        p.valid(),
        from.valid(),
        unit(d),
        k >= 1,
    ensures
        ({
            let ms = ray_moves(
                p.squares,
                from,
                p.side,
                from.on_file() + far(d.0, k),
                from.on_rank() + far(d.1, k),
                d,
                n,
            );
            &&& ms.no_duplicates()
            &&& forall|i: int|
                0 <= i < ms.len() ==> {
                    &&& (#[trigger] ms[i]).from == from
                    &&& ms[i].promotion is None
                    &&& ms[i].to.valid()
                    &&& !own_piece(p.squares[ms[i].to.0 as int], p.side)
                    &&& off(from, ms[i].to, (far(d.0, k + i), far(d.1, k + i)))
                }
        }),
    decreases n,
{
    let (f, r) = (from.on_file() + far(d.0, k), from.on_rank() + far(d.1, k));
    let ms = ray_moves(p.squares, from, p.side, f, r, d, n);
    if n > 0 {
        lemma_square(f, r);
        if let Some(to) = square_at(f, r) {
            if p.squares[to.0 as int] is None {
                let rest = ray_moves(p.squares, from, p.side, f + d.0, r + d.1, d, (n - 1) as nat);
                lemma_ray_moves(p, from, d, k + 1, (n - 1) as nat);
                assert(f + d.0 == from.on_file() + far(d.0, k + 1));
                assert(r + d.1 == from.on_rank() + far(d.1, k + 1));
                assert forall|i: int| 0 <= i < ms.len() implies {
                    &&& (#[trigger] ms[i]).from == from
                    &&& ms[i].promotion is None
                    &&& ms[i].to.valid()
                    &&& !own_piece(p.squares[ms[i].to.0 as int], p.side)
                    &&& off(from, ms[i].to, (far(d.0, k + i), far(d.1, k + i)))
                } by {
                    if i > 0 {
                        assert(ms[i] == rest[i - 1]);
                    }
                }
                assert forall|i: int, j: int| 0 <= i < j < ms.len() implies ms[i] != ms[j] by {
                    assert(off(from, ms[i].to, (far(d.0, k + i), far(d.1, k + i))));
                    assert(off(from, ms[j].to, (far(d.0, k + j), far(d.1, k + j))));
                }
            }
        }
    }
}

proof fn lemma_slides_differ(diagonal: bool, i: int, j: int)
    requires
        0 <= i < j < 4,
    ensures
        slide_step(diagonal, i) != slide_step(diagonal, j),
        unit(slide_step(diagonal, i)),
        unit(slide_step(diagonal, j)),
{
}

/// Whether a square lies on a line from another.
spec fn on_line(from: Square, to: Square, d: (int, int)) -> bool {
    exists|i: int| i >= 1 && off(from, to, (#[trigger] far(d.0, i), far(d.1, i)))
}

/// Squares lie on one line at most.
proof fn lemma_one_line(from: Square, to: Square, d: (int, int), e: (int, int))
    requires
        unit(d),
        unit(e),
        on_line(from, to, d),
        on_line(from, to, e),
    ensures
        d == e,
{
    let i = choose|i: int| i >= 1 && off(from, to, (#[trigger] far(d.0, i), far(d.1, i)));
    let j = choose|j: int| j >= 1 && off(from, to, (#[trigger] far(e.0, j), far(e.1, j)));
}

/// Two lists with nothing in common make one without repetition.
proof fn lemma_apart(a: Seq<Move>, b: Seq<Move>)
    requires
        a.no_duplicates(),
        b.no_duplicates(),
        forall|i: int, j: int|
            #![trigger a[i], b[j]]
            0 <= i < a.len() && 0 <= j < b.len() ==> a[i] != b[j],
    ensures
        (a + b).no_duplicates(),
{
    let ms = a + b;
    assert forall|i: int, j: int| 0 <= i < ms.len() && 0 <= j < ms.len() && i != j implies ms[i]
        != ms[j] by {
        if i < a.len() {
            assert(ms[i] == a[i]);
        } else {
            assert(ms[i] == b[i - a.len()]);
        }
        if j < a.len() {
            assert(ms[j] == a[j]);
        } else {
            assert(ms[j] == b[j - a.len()]);
        }
    }
}

/// A slider's moves.
proof fn lemma_slide_moves(p: Position, from: Square, diagonal: bool, n: nat)
    requires
        p.valid(),
        from.valid(),
        n <= 4,
    ensures
        ({
            let ms = slide_moves(p.squares, from, p.side, diagonal, n);
            &&& ms.no_duplicates()
            &&& forall|i: int|
                0 <= i < ms.len() ==> {
                    &&& (#[trigger] ms[i]).from == from
                    &&& ms[i].promotion is None
                    &&& ms[i].to.valid()
                    &&& !own_piece(p.squares[ms[i].to.0 as int], p.side)
                    &&& exists|j: int|
                        0 <= j < n && on_line(from, ms[i].to, #[trigger] slide_step(diagonal, j))
                }
        }),
    decreases n,
{
    let ms = slide_moves(p.squares, from, p.side, diagonal, n);
    if n > 0 {
        let m = (n - 1) as nat;
        lemma_slide_moves(p, from, diagonal, m);
        let d = slide_step(diagonal, n - 1);
        let a = slide_moves(p.squares, from, p.side, diagonal, m);
        let b = ray_moves(
            p.squares,
            from,
            p.side,
            from.on_file() + d.0,
            from.on_rank() + d.1,
            d,
            8,
        );
        assert(unit(d));
        assert(far(d.0, 1) == d.0 && far(d.1, 1) == d.1);
        lemma_ray_moves(p, from, d, 1, 8);
        assert forall|i: int| 0 <= i < b.len() implies on_line(from, (#[trigger] b[i]).to, d) by {
            assert(off(from, b[i].to, (far(d.0, 1 + i), far(d.1, 1 + i))));
        }
        assert forall|i: int, j: int|
            #![trigger a[i], b[j]]
            0 <= i < a.len() && 0 <= j < b.len() implies a[i] != b[j] by {
            let h = choose|h: int|
                0 <= h < m && on_line(from, a[i].to, #[trigger] slide_step(diagonal, h));
            lemma_slides_differ(diagonal, h, n - 1);
            if a[i].to == b[j].to {
                lemma_one_line(from, a[i].to, slide_step(diagonal, h), d);
            }
        }
        lemma_apart(a, b);
        assert forall|i: int| 0 <= i < ms.len() implies {
            &&& (#[trigger] ms[i]).from == from
            &&& ms[i].promotion is None
            &&& ms[i].to.valid()
            &&& !own_piece(p.squares[ms[i].to.0 as int], p.side)
            &&& exists|j: int|
                0 <= j < n && on_line(from, ms[i].to, #[trigger] slide_step(diagonal, j))
        } by {
            if i < a.len() {
                assert(ms[i] == a[i]);
                let h = choose|h: int|
                    0 <= h < m && on_line(from, a[i].to, #[trigger] slide_step(diagonal, h));
                assert(on_line(from, ms[i].to, slide_step(diagonal, h)));
            } else {
                assert(ms[i] == b[i - a.len()]);
                assert(on_line(from, ms[i].to, slide_step(diagonal, n - 1)));
            }
        }
    }
}

/// A pawn's arrivals on one square.
proof fn lemma_arrivals(p: Position, from: Square, to: Square)
    requires
        p.valid(),
        from.valid(),
        to.valid(),
        p.squares[from.0 as int] == Some(Piece { color: p.side, kind: PieceKind::Pawn }),
        en_passant_free(p) ==> !own_piece(p.squares[to.0 as int], p.side),
    ensures
        ({
            let ms = pawn_arrivals(from, to, p.side);
            &&& all_fit(p, ms)
            &&& all_four(ms)
            &&& ms.no_duplicates()
            &&& forall|i: int| 0 <= i < ms.len() ==> (#[trigger] ms[i]).from == from && ms[i].to == to
        }),
{
    let ms = pawn_arrivals(from, to, p.side);
    if to.on_rank() == p.side.last_rank() {
        assert(ms[0].promotion == Some(PieceKind::Queen));
        assert(ms[1].promotion == Some(PieceKind::Rook));
        assert(ms[2].promotion == Some(PieceKind::Bishop));
        assert(ms[3].promotion == Some(PieceKind::Knight));
        assert forall|i: int, kind: PieceKind|
            #![trigger ms[i], promotable(kind)]
            0 <= i < ms.len() && ms[i].promotion is Some && promotable(kind) implies ms.contains(
            Move { promotion: Some(kind), ..ms[i] },
        ) by {
            let mv = Move { promotion: Some(kind), ..ms[i] };
            assert(ms[0] == mv || ms[1] == mv || ms[2] == mv || ms[3] == mv);
        }
    }
}

proof fn lemma_all_four_of_both(a: Seq<Move>, b: Seq<Move>)
    requires
        all_four(a),
        all_four(b),
    ensures
        all_four(a + b),
{
    let ms = a + b;
    assert forall|i: int, kind: PieceKind|
        #![trigger ms[i], promotable(kind)]
        0 <= i < ms.len() && ms[i].promotion is Some && promotable(kind) implies ms.contains(
        Move { promotion: Some(kind), ..ms[i] },
    ) by {
        let mv = Move { promotion: Some(kind), ..ms[i] };
        if i < a.len() {
            assert(ms[i] == a[i]);
            assert(a.contains(mv));
            let j = choose|j: int| 0 <= j < a.len() && a[j] == mv;
            assert(ms[j] == mv);
        } else {
            assert(ms[i] == b[i - a.len()]);
            assert(b.contains(mv));
            let j = choose|j: int| 0 <= j < b.len() && b[j] == mv;
            assert(ms[a.len() + j] == mv);
        }
    }
}

proof fn lemma_all_fit_of_both(p: Position, a: Seq<Move>, b: Seq<Move>)
    requires
        all_fit(p, a),
        all_fit(p, b),
    ensures
        all_fit(p, a + b),
{
    assert forall|i: int| 0 <= i < (a + b).len() implies fits(p, #[trigger] (a + b)[i]) by {
        if i < a.len() {
            assert((a + b)[i] == a[i]);
        } else {
            assert((a + b)[i] == b[i - a.len()]);
        }
    }
}

/// Whether all of a list start on one square.
pub open spec fn all_from(ms: Seq<Move>, from: Square) -> bool {
    forall|i: int| 0 <= i < ms.len() ==> (#[trigger] ms[i]).from == from
}

/// A pawn's moves ahead.
proof fn lemma_advances(p: Position, from: Square)
    requires
        p.valid(),
        from.valid(),
        p.squares[from.0 as int] == Some(Piece { color: p.side, kind: PieceKind::Pawn }),
    ensures
        ({
            let ms = pawn_advances(p.squares, from, p.side);
            &&& all_fit(p, ms)
            &&& all_four(ms)
            &&& ms.no_duplicates()
            &&& all_from(ms, from)
            &&& forall|i: int|
                0 <= i < ms.len() ==> (#[trigger] ms[i]).to.on_file() == from.on_file()
        }),
{
    let me = p.side;
    lemma_square(from.on_file(), from.on_rank() + me.forward());
    lemma_square(from.on_file(), from.on_rank() + 2 * me.forward());
    if let Some(one) = square_at(from.on_file(), from.on_rank() + me.forward()) {
        if p.squares[one.0 as int] is None {
            lemma_arrivals(p, from, one);
            let a = pawn_arrivals(from, one, me);
            if let Some(two) = square_at(from.on_file(), from.on_rank() + 2 * me.forward()) {
                if from.on_rank() == me.pawn_home() && p.squares[two.0 as int] is None {
                    let b = seq![Move { from, to: two, promotion: None }];
                    assert(all_fit(p, b));
                    lemma_all_fit_of_both(p, a, b);
                    lemma_all_four_of_both(a, b);
                    lemma_apart(a, b);
                } else {
                    assert(a + Seq::<Move>::empty() =~= a);
                }
            } else {
                assert(a + Seq::<Move>::empty() =~= a);
            }
        }
    }
}

/// A pawn's captures to one side.
proof fn lemma_captures(p: Position, from: Square, df: int)
    requires
        p.valid(),
        from.valid(),
        p.squares[from.0 as int] == Some(Piece { color: p.side, kind: PieceKind::Pawn }),
    ensures
        ({
            let ms = pawn_captures(p, from, p.side, df);
            &&& all_fit(p, ms)
            &&& all_four(ms)
            &&& ms.no_duplicates()
            &&& all_from(ms, from)
            &&& forall|i: int|
                0 <= i < ms.len() ==> (#[trigger] ms[i]).to.on_file() == from.on_file() + df
        }),
{
    lemma_square(from.on_file() + df, from.on_rank() + p.side.forward());
    if let Some(to) = square_at(from.on_file() + df, from.on_rank() + p.side.forward()) {
        if own_piece(p.squares[to.0 as int], p.side.other()) || p.en_passant == Some(to) {
            lemma_arrivals(p, from, to);
        }
    }
}

proof fn lemma_pawn_moves(p: Position, from: Square)
    requires
        p.valid(),
        from.valid(),
        p.squares[from.0 as int] == Some(Piece { color: p.side, kind: PieceKind::Pawn }),
    ensures
        all_fit(p, pawn_moves(p, from, p.side)),
        all_four(pawn_moves(p, from, p.side)),
        pawn_moves(p, from, p.side).no_duplicates(),
        all_from(pawn_moves(p, from, p.side), from),
{
    let a = pawn_advances(p.squares, from, p.side);
    let b = pawn_captures(p, from, p.side, -1);
    let c = pawn_captures(p, from, p.side, 1);
    lemma_advances(p, from);
    lemma_captures(p, from, -1);
    lemma_captures(p, from, 1);
    lemma_all_fit_of_both(p, a, b);
    lemma_all_fit_of_both(p, a + b, c);
    lemma_all_four_of_both(a, b);
    lemma_all_four_of_both(a + b, c);
    lemma_apart(a, b);
    assert forall|i: int, j: int|
        #![trigger (a + b)[i], c[j]]
        0 <= i < (a + b).len() && 0 <= j < c.len() implies (a + b)[i] != c[j] by {
        if i < a.len() {
            assert((a + b)[i] == a[i]);
        } else {
            assert((a + b)[i] == b[i - a.len()]);
        }
    }
    lemma_apart(a + b, c);
}

/// Castling is the king's.
proof fn lemma_castling_moves(p: Position)
    requires
        p.valid(),
    ensures
        all_fit(p, castling_moves(p, p.side)),
        castling_moves(p, p.side).no_duplicates(),
        forall|i: int|
            0 <= i < castling_moves(p, p.side).len() ==> {
                let mv = #[trigger] castling_moves(p, p.side)[i];
                &&& mv.from == home_square(p.side, 4)
                &&& holds(p.squares, 4, p.side.home_rank(), p.side, PieceKind::King)
                &&& mv.promotion is None
                &&& mv.to.on_file() == 6 || mv.to.on_file() == 2
            },
{
}

/// The moves of one piece.
proof fn lemma_moves_from(p: Position, from: Square)
    requires
        p.valid(),
        from.valid(),
    ensures
        all_fit(p, moves_from(p, from)),
        all_four(moves_from(p, from)),
        one_king(p) ==> moves_from(p, from).no_duplicates() && all_from(moves_from(p, from), from),
{
    let ms = moves_from(p, from);
    if let Some(piece) = p.squares[from.0 as int] {
        if piece.color == p.side {
            match piece.kind {
                PieceKind::Pawn => lemma_pawn_moves(p, from),
                PieceKind::Knight => lemma_step_moves(p, from, true, 8),
                PieceKind::King => lemma_king_moves(p, from),
                PieceKind::Bishop => lemma_slide_moves(p, from, true, 4),
                PieceKind::Rook => lemma_slide_moves(p, from, false, 4),
                PieceKind::Queen => lemma_queen_moves(p, from),
            }
        }
    }
}

proof fn lemma_king_moves(p: Position, from: Square)
    requires
        p.valid(),
        from.valid(),
        p.squares[from.0 as int] == Some(Piece { color: p.side, kind: PieceKind::King }),
    ensures
        all_fit(p, moves_from(p, from)),
        all_four(moves_from(p, from)),
        one_king(p) ==> moves_from(p, from).no_duplicates() && all_from(moves_from(p, from), from),
{
    let a = step_moves(p.squares, from, p.side, false, 8);
    let b = castling_moves(p, p.side);
    lemma_step_moves(p, from, false, 8);
    lemma_castling_moves(p);
    assert(all_fit(p, a));
    lemma_all_fit_of_both(p, a, b);
    lemma_all_four_of_both(a, b);
    if one_king(p) {
        if b.len() > 0 {
            assert(b[0].from == home_square(p.side, 4));
            let h = home_square(p.side, 4);
            assert(p.squares[h.0 as int] == Some(Piece { color: p.side, kind: PieceKind::King }));
            assert(h.0 as int == from.0 as int);
            assert(h == from);
        }
        assert forall|i: int, j: int|
            #![trigger a[i], b[j]]
            0 <= i < a.len() && 0 <= j < b.len() implies a[i] != b[j] by {
            let k = choose|k: int|
                0 <= k < 8 && off(from, a[i].to, #[trigger] either_step(false, k));
            assert(b[j].from == home_square(p.side, 4));
        }
        lemma_apart(a, b);
        assert forall|i: int| 0 <= i < (a + b).len() implies (#[trigger] (a + b)[i]).from == from by {
            if i < a.len() {
                assert((a + b)[i] == a[i]);
            } else {
                assert((a + b)[i] == b[i - a.len()]);
            }
        }
    }
}

proof fn lemma_queen_moves(p: Position, from: Square)
    requires
        p.valid(),
        from.valid(),
        p.squares[from.0 as int] == Some(Piece { color: p.side, kind: PieceKind::Queen }),
    ensures
        all_fit(p, moves_from(p, from)),
        all_four(moves_from(p, from)),
        moves_from(p, from).no_duplicates(),
        all_from(moves_from(p, from), from),
{
    let a = slide_moves(p.squares, from, p.side, true, 4);
    let b = slide_moves(p.squares, from, p.side, false, 4);
    lemma_slide_moves(p, from, true, 4);
    lemma_slide_moves(p, from, false, 4);
    assert(all_fit(p, a));
    assert(all_fit(p, b));
    lemma_all_fit_of_both(p, a, b);
    lemma_all_four_of_both(a, b);
    assert forall|i: int, j: int|
        #![trigger a[i], b[j]]
        0 <= i < a.len() && 0 <= j < b.len() implies a[i] != b[j] by {
        let h = choose|h: int|
            0 <= h < 4 && on_line(from, a[i].to, #[trigger] slide_step(true, h));
        let k = choose|k: int|
            0 <= k < 4 && on_line(from, b[j].to, #[trigger] slide_step(false, k));
        if a[i].to == b[j].to {
            lemma_one_line(from, a[i].to, slide_step(true, h), slide_step(false, k));
        }
    }
    lemma_apart(a, b);
    assert forall|i: int| 0 <= i < (a + b).len() implies (#[trigger] (a + b)[i]).from == from by {
        if i < a.len() {
            assert((a + b)[i] == a[i]);
        } else {
            assert((a + b)[i] == b[i - a.len()]);
        }
    }
}

/// The moves from the first squares.
proof fn lemma_pseudo_moves(p: Position, n: nat)
    requires
        p.valid(),
        n <= 64,
    ensures
        all_fit(p, pseudo_moves(p, n)),
        all_four(pseudo_moves(p, n)),
        one_king(p) ==> pseudo_moves(p, n).no_duplicates(),
        one_king(p) ==> forall|i: int|
            0 <= i < pseudo_moves(p, n).len() ==> (#[trigger] pseudo_moves(p, n)[i]).from.0 < n,
    decreases n,
{
    if n > 0 {
        let a = pseudo_moves(p, (n - 1) as nat);
        let from = Square((n - 1) as u8);
        let b = moves_from(p, from);
        lemma_pseudo_moves(p, (n - 1) as nat);
        lemma_moves_from(p, from);
        lemma_all_fit_of_both(p, a, b);
        lemma_all_four_of_both(a, b);
        if one_king(p) {
            lemma_apart(a, b);
            assert forall|i: int| 0 <= i < (a + b).len() implies (#[trigger] (a + b)[i]).from.0 < n by {
                if i < a.len() {
                    assert((a + b)[i] == a[i]);
                } else {
                    assert((a + b)[i] == b[i - a.len()]);
                }
            }
        }
    }
}

/// Every move that a piece can make starts on a piece of the side to move, does
/// not end on one, and promotes just where a pawn comes to its last rank, where
/// all four promotions are listed.
pub proof fn law_listed_moves_fit(p: Position, mv: Move)
    requires
        p.valid(),
        pseudo_moves(p, 64).contains(mv),
    ensures
        fits(p, mv),
        mv.promotion is Some ==> forall|kind: PieceKind| #[trigger]
            promotable(kind) ==> pseudo_moves(p, 64).contains(
                Move { promotion: Some(kind), ..mv },
            ),
{
    let ms = pseudo_moves(p, 64);
    lemma_pseudo_moves(p, 64);
    let i = choose|i: int| 0 <= i < ms.len() && ms[i] == mv;
    assert(fits(p, ms[i]));
}

/// Keeping some of a list repeats nothing.
proof fn lemma_kept_safe(p: Position, ms: Seq<Move>)
    ensures
        ms.no_duplicates() ==> keep_safe(p, ms).no_duplicates(),
        forall|i: int|
            0 <= i < keep_safe(p, ms).len() ==> ms.contains(#[trigger] keep_safe(p, ms)[i])
                && keeps_king_safe(p, keep_safe(p, ms)[i]),
    decreases ms.len(),
{
    let kept = keep_safe(p, ms);
    if ms.len() > 0 {
        let front = ms.drop_last();
        lemma_kept_safe(p, front);
        let rest = keep_safe(p, front);
        assert forall|i: int| 0 <= i < kept.len() implies ms.contains(#[trigger] kept[i])
            && keeps_king_safe(p, kept[i]) by {
            if i < rest.len() {
                assert(kept[i] == rest[i]);
                let j = choose|j: int| 0 <= j < front.len() && front[j] == rest[i];
                assert(ms[j] == kept[i]);
            } else {
                assert(ms[ms.len() - 1] == kept[i]);
            }
        }
        if ms.no_duplicates() {
            assert(front.no_duplicates()) by {
                assert forall|i: int, j: int|
                    0 <= i < front.len() && 0 <= j < front.len() && i != j implies front[i]
                    != front[j] by {
                    assert(front[i] == ms[i] && front[j] == ms[j]);
                }
            }
            if kept.len() > rest.len() {
                assert forall|i: int| 0 <= i < rest.len() implies rest[i] != kept.last() by {
                    assert(front.contains(rest[i]));
                    let j = choose|j: int| 0 <= j < front.len() && front[j] == rest[i];
                    assert(ms[j] == rest[i]);
                    assert(ms[ms.len() - 1] == kept.last());
                }
                assert(kept =~= rest.push(kept.last()));
            }
        }
    }
}

/// A move is listed as legal exactly when it can be made, and leaves the
/// mover's own king out of check.
pub proof fn law_legal_moves_can_be_made(p: Position, mv: Move)
    requires
        p.valid(),
    ensures
        legal_moves(p).contains(mv) <==> move_fault(p, mv) is None,
        legal_moves(p).contains(mv) ==> keeps_king_safe(p, mv) && fits(p, mv),
{
    let ms = legal_moves(p);
    if ms.contains(mv) {
        lemma_kept_safe(p, pseudo_moves(p, 64));
        let i = choose|i: int| 0 <= i < ms.len() && ms[i] == mv;
        assert(pseudo_moves(p, 64).contains(ms[i]));
        law_listed_moves_fit(p, mv);
    }
}

/// No legal move is listed twice, where the side to move has one king at most.
pub proof fn law_legal_moves_are_listed_once(p: Position)
    requires
        p.valid(),
        one_king(p),
    ensures
        legal_moves(p).no_duplicates(),
{
    lemma_pseudo_moves(p, 64);
    lemma_kept_safe(p, pseudo_moves(p, 64));
}

/// The moves of a list that start on one square are those of the list that do,
/// in its order.
proof fn lemma_kept_from(ms: Seq<Move>, from: Square)
    ensures
        keep_from(ms, from) == ms.filter(|mv: Move| mv.from == from),
        forall|mv: Move| #[trigger]
            keep_from(ms, from).contains(mv) <==> ms.contains(mv) && mv.from == from,
    decreases ms.len(),
{
    let kept = keep_from(ms, from);
    let cond = |mv: Move| mv.from == from;
    reveal(Seq::filter);
    if ms.len() > 0 {
        let front = ms.drop_last();
        lemma_kept_from(front, from);
        let rest = keep_from(front, from);
        assert forall|mv: Move| #[trigger] kept.contains(mv) <==> ms.contains(mv) && mv.from
            == from by {
            if kept.contains(mv) {
                let i = choose|i: int| 0 <= i < kept.len() && kept[i] == mv;
                if i < rest.len() {
                    assert(rest[i] == mv);
                    assert(rest.contains(mv));
                    let j = choose|j: int| 0 <= j < front.len() && front[j] == mv;
                    assert(ms[j] == mv);
                } else {
                    assert(ms[ms.len() - 1] == mv);
                }
            }
            if ms.contains(mv) && mv.from == from {
                let j = choose|j: int| 0 <= j < ms.len() && ms[j] == mv;
                if j < front.len() {
                    assert(front[j] == mv);
                    assert(rest.contains(mv));
                    let i = choose|i: int| 0 <= i < rest.len() && rest[i] == mv;
                    assert(kept[i] == mv);
                } else {
                    assert(kept[kept.len() - 1] == mv);
                }
            }
        }
    }
}

/// How many of a list start on one of the first `n` squares, square by square.
pub open spec fn how_many_from(ms: Seq<Move>, n: nat) -> nat
    decreases n,
{
    if n == 0 {
        0
    } else {
        how_many_from(ms, (n - 1) as nat) + keep_from(ms, Square((n - 1) as u8)).len()
    }
}

proof fn lemma_one_more_from(ms: Seq<Move>, n: nat)
    requires
        n <= 64,
        ms.len() > 0,
    ensures
        how_many_from(ms, n) == how_many_from(ms.drop_last(), n) + (if ms.last().from.0 < n {
            1nat
        } else {
            0
        }),
    decreases n,
{
    if n > 0 {
        lemma_one_more_from(ms, (n - 1) as nat);
    }
}

proof fn lemma_all_are_from(ms: Seq<Move>)
    requires
        forall|i: int| 0 <= i < ms.len() ==> (#[trigger] ms[i]).valid(),
    ensures
        how_many_from(ms, 64) == ms.len(),
    decreases ms.len(),
{
    if ms.len() > 0 {
        let front = ms.drop_last();
        assert forall|i: int| 0 <= i < front.len() implies (#[trigger] front[i]).valid() by {
            assert(front[i] == ms[i]);
        }
        lemma_all_are_from(front);
        lemma_one_more_from(ms, 64);
        assert(ms[ms.len() - 1].valid());
    } else {
        lemma_none_from(ms, 64);
    }
}

proof fn lemma_none_from(ms: Seq<Move>, n: nat)
    requires
        ms.len() == 0,
    ensures
        how_many_from(ms, n) == 0,
    decreases n,
{
    if n > 0 {
        lemma_none_from(ms, (n - 1) as nat);
    }
}

/// The legal moves from a square are the legal moves that start there, in their
/// order; there are none where no piece of the side to move stands.
pub proof fn law_legal_moves_from(p: Position, from: Square)
    requires
        p.valid(),
        from.valid(),
    ensures
        keep_from(legal_moves(p), from) == legal_moves(p).filter(|mv: Move| mv.from == from),
        forall|mv: Move| #[trigger]
            keep_from(legal_moves(p), from).contains(mv) <==> legal_moves(p).contains(mv) && mv.from
                == from,
        !own_piece(p.squares[from.0 as int], p.side) ==> keep_from(legal_moves(p), from).len()
            == 0,
{
    let kept = keep_from(legal_moves(p), from);
    lemma_kept_from(legal_moves(p), from);
    if kept.len() > 0 {
        assert(kept.contains(kept[0]));
        law_legal_moves_can_be_made(p, kept[0]);
    }
}

/// The lists of the sixty-four squares share the legal moves out: each move is
/// in the list of its square, in no other, and in all there are as many.
pub proof fn law_squares_share_out_legal_moves(p: Position, mv: Move)
    requires
        p.valid(),
        legal_moves(p).contains(mv),
    ensures
        mv.from.valid(),
        forall|from: Square| #[trigger]
            keep_from(legal_moves(p), from).contains(mv) <==> from == mv.from,
        how_many_from(legal_moves(p), 64) == legal_moves(p).len(),
{
    let ms = legal_moves(p);
    law_legal_moves_can_be_made(p, mv);
    assert forall|from: Square| #[trigger] keep_from(ms, from).contains(mv) <==> from == mv.from by {
        lemma_kept_from(ms, from);
    }
    assert forall|i: int| 0 <= i < ms.len() implies (#[trigger] ms[i]).valid() by {
        assert(ms.contains(ms[i]));
        law_legal_moves_can_be_made(p, ms[i]);
    }
    lemma_all_are_from(ms);
}

/// A move is legal in a game exactly when it can be played, and none is once
/// the game is over.
pub proof fn law_legal_moves_can_be_played(l: Line, mv: Move)
    requires
        l.pos.valid(),
    ensures
        (l.status == GameStatus::InProgress && legal_moves(l.pos).contains(mv)) <==> line_fault(
            l,
            mv,
        ) is None,
        l.status != GameStatus::InProgress ==> line_fault(l, mv) is Some,
{
    law_legal_moves_can_be_made(l.pos, mv);
}

} // verus!
