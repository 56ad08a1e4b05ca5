//! How the pieces go: where each can get to, what it attacks, and when a king
//! may castle, by files and ranks alone.

use super::rules::{
    at, attacked, can_castle_kingside, can_castle_queenside, castling_moves, first_on_ray, holds,
    home_square, in_check, king_from, king_step, knight_step, legal_moves, moves_from, own_piece,
    pawn_advances, pawn_arrivals, pawn_captures, pseudo_moves, ray_attack, ray_moves, slide_moves,
    slide_step, step_moves, Position,
};
use super::types::{on_board, square_at, Color, Move, Piece, PieceKind, Square};
use vstd::prelude::*;

verus! {

/// How far apart two files or two ranks are.
pub open spec fn apart(a: int, b: int) -> int {
    if a < b {
        b - a
    } else {
        a - b
    }
}

/// Some steps the way that a distance goes.
pub open spec fn along(way: int, k: int) -> int {
    if way > 0 {
        k
    } else if way < 0 {
        -k
    } else {
        0
    }
}

/// Whether a knight gets from one square to another.
pub open spec fn a_jump(f: int, r: int, g: int, q: int) -> bool {
    (apart(f, g) == 1 && apart(r, q) == 2) || (apart(f, g) == 2 && apart(r, q) == 1)
}

/// Whether a king gets from one square to another in one step.
pub open spec fn a_step(f: int, r: int, g: int, q: int) -> bool {
    apart(f, g) <= 1 && apart(r, q) <= 1 && (f != g || r != q)
}

/// Whether two squares are on one diagonal.
pub open spec fn on_diagonal(f: int, r: int, g: int, q: int) -> bool {
    apart(f, g) == apart(r, q) && f != g
}

/// Whether two squares are on one file or one rank.
pub open spec fn on_row(f: int, r: int, g: int, q: int) -> bool {
    (f == g) != (r == q)
}

/// Whether nothing stands between two squares on one line.
pub open spec fn clear_between(s: Seq<Option<Piece>>, f: int, r: int, g: int, q: int) -> bool {
    forall|k: int|
        #![trigger at(s, f + along(g - f, k), r + along(q - r, k))]
        0 < k < apart(f, g) || 0 < k < apart(r, q) ==> at(
            s,
            f + along(g - f, k),
            r + along(q - r, k),
        ) is None
}

/// Whether a piece on one square attacks another.
pub open spec fn bears_on(
    s: Seq<Option<Piece>>,
    piece: Piece,
    f: int,
    r: int,
    g: int,
    q: int,
) -> bool {
    match piece.kind {
        PieceKind::Pawn => apart(f, g) == 1 && q == (match piece.color {
            Color::White => r + 1,
            Color::Black => r - 1,
        }),
        PieceKind::Knight => a_jump(f, r, g, q),
        PieceKind::King => a_step(f, r, g, q),
        PieceKind::Bishop => on_diagonal(f, r, g, q) && clear_between(s, f, r, g, q),
        PieceKind::Rook => on_row(f, r, g, q) && clear_between(s, f, r, g, q),
        PieceKind::Queen => (on_diagonal(f, r, g, q) || on_row(f, r, g, q)) && clear_between(
            s,
            f,
            r,
            g,
            q,
        ),
    }
}

/// The way from one square to another, as a step of a slide.
spec fn way_of(f: int, r: int, g: int, q: int) -> (int, int) {
    (along(g - f, 1), along(q - r, 1))
}

spec fn unit(d: (int, int)) -> bool {
    -1 <= d.0 <= 1 && -1 <= d.1 <= 1 && (d.0 != 0 || d.1 != 0)
}

/// Which of the four ways of a slide one is.
proof fn lemma_ways(diagonal: bool, d: (int, int)) -> (i: int)
    requires
        diagonal ==> apart(d.0, 0) == 1 && apart(d.1, 0) == 1,
        !diagonal ==> apart(d.0, 0) + apart(d.1, 0) == 1,
    ensures
        0 <= i < 4,
        slide_step(diagonal, i) == d,
{
    if slide_step(diagonal, 0) == d {
        0
    } else if slide_step(diagonal, 1) == d {
        1
    } else if slide_step(diagonal, 2) == d {
        2
    } else {
        3
    }
}

/// The first thing met on a ray stands some steps along, with nothing before
/// it.
proof fn lemma_first_on_ray(
    s: Seq<Option<Piece>>,
    f: int,
    r: int,
    d: (int, int),
    k: int,
    n: nat,
) -> (j: int)
    requires
        unit(d),
        on_board(f, r),
        k >= 1,
        first_on_ray(s, f + along(d.0, k), r + along(d.1, k), d, n) is Some,
    ensures
        k <= j < k + n,
        on_board(f + along(d.0, j), r + along(d.1, j)),
        at(s, f + along(d.0, j), r + along(d.1, j)) == first_on_ray(
            s,
            f + along(d.0, k),
            r + along(d.1, k),
            d,
            n,
        ),
        forall|i: int|
            #![trigger at(s, f + along(d.0, i), r + along(d.1, i))]
            k <= i < j ==> at(s, f + along(d.0, i), r + along(d.1, i)) is None,
    decreases n,
{
    if at(s, f + along(d.0, k), r + along(d.1, k)) is Some {
        k
    } else {
        assert(f + along(d.0, k) + d.0 == f + along(d.0, k + 1));
        assert(r + along(d.1, k) + d.1 == r + along(d.1, k + 1));
        let j = lemma_first_on_ray(s, f, r, d, k + 1, (n - 1) as nat);
        j
    }
}

/// What stands some steps along a ray, with nothing before it, is met first.
proof fn lemma_met_first(
    s: Seq<Option<Piece>>,
    f: int,
    r: int,
    d: (int, int),
    k: int,
    j: int,
    n: nat,
)
    requires
        unit(d),
        on_board(f, r),
        1 <= k <= j < k + n,
        on_board(f + along(d.0, j), r + along(d.1, j)),
        at(s, f + along(d.0, j), r + along(d.1, j)) is Some,
        forall|i: int|
            #![trigger at(s, f + along(d.0, i), r + along(d.1, i))]
            k <= i < j ==> at(s, f + along(d.0, i), r + along(d.1, i)) is None,
    ensures
        first_on_ray(s, f + along(d.0, k), r + along(d.1, k), d, n) == at(
            s,
            f + along(d.0, j),
            r + along(d.1, j),
        ),
    decreases n,
{
    assert(on_board(f + along(d.0, k), r + along(d.1, k)));
    if k < j {
        assert(at(s, f + along(d.0, k), r + along(d.1, k)) is None);
        assert(f + along(d.0, k) + d.0 == f + along(d.0, k + 1));
        assert(r + along(d.1, k) + d.1 == r + along(d.1, k + 1));
        lemma_met_first(s, f, r, d, k + 1, j, (n - 1) as nat);
    }
}

/// Between two squares it is clear whichever is looked from.
proof fn lemma_clear_both_ways(s: Seq<Option<Piece>>, f: int, r: int, g: int, q: int)
    requires
        on_diagonal(f, r, g, q) || on_row(f, r, g, q),
        clear_between(s, f, r, g, q),
    ensures
        clear_between(s, g, q, f, r),
{
    let n = if f == g {
        apart(r, q)
    } else {
        apart(f, g)
    };
    assert forall|k: int|
        #![trigger at(s, g + along(f - g, k), q + along(r - q, k))]
        0 < k < apart(f, g) || 0 < k < apart(r, q) implies at(
        s,
        g + along(f - g, k),
        q + along(r - q, k),
    ) is None by {
        let i = n - k;
        assert(g + along(f - g, k) == f + along(g - f, i));
        assert(q + along(r - q, k) == r + along(q - r, i));
        assert(at(s, f + along(g - f, i), r + along(q - r, i)) is None);
    }
}

/// A ray attacks a square if it leads to a piece that slides that way.
proof fn lemma_rays(s: Seq<Option<Piece>>, f: int, r: int, color: Color, diagonal: bool, i: int)
    requires
        on_board(f, r),
        0 <= i < 4,
        ray_attack(s, f, r, color, diagonal, i),
    ensures
        exists|a: int, b: int|
            on_board(a, b) && (#[trigger] at(s, a, b)) is Some && at(s, a, b)->0.color == color
                && bears_on(s, at(s, a, b)->0, a, b, f, r),
{
    let d = slide_step(diagonal, i);
    assert(f + d.0 == f + along(d.0, 1) && r + d.1 == r + along(d.1, 1));
    let j = lemma_first_on_ray(s, f, r, d, 1, 8);
    let (a, b) = (f + along(d.0, j), r + along(d.1, j));
    assert(diagonal ==> on_diagonal(f, r, a, b));
    assert(!diagonal ==> on_row(f, r, a, b));
    assert(clear_between(s, f, r, a, b)) by {
        assert forall|k: int|
            #![trigger at(s, f + along(a - f, k), r + along(b - r, k))]
            0 < k < apart(f, a) || 0 < k < apart(r, b) implies at(
            s,
            f + along(a - f, k),
            r + along(b - r, k),
        ) is None by {
            assert(f + along(a - f, k) == f + along(d.0, k));
            assert(r + along(b - r, k) == r + along(d.1, k));
            assert(at(s, f + along(d.0, k), r + along(d.1, k)) is None);
        }
    }
    lemma_clear_both_ways(s, f, r, a, b);
    assert(at(s, a, b) is Some);
}

/// A sliding piece with a clear way to a square is met first from there.
proof fn lemma_slides_bear(
    s: Seq<Option<Piece>>,
    a: int,
    b: int,
    f: int,
    r: int,
    diagonal: bool,
) -> (i: int)
    requires
        on_board(f, r),
        on_board(a, b),
        at(s, a, b) is Some,
        diagonal ==> on_diagonal(a, b, f, r),
        !diagonal ==> on_row(a, b, f, r),
        clear_between(s, a, b, f, r),
    ensures
        0 <= i < 4,
        first_on_ray(
            s,
            f + slide_step(diagonal, i).0,
            r + slide_step(diagonal, i).1,
            slide_step(diagonal, i),
            8,
        ) == at(s, a, b),
{
    let d = way_of(f, r, a, b);
    let i = lemma_ways(diagonal, d);
    lemma_clear_both_ways(s, a, b, f, r);
    let j = if f == a {
        apart(r, b)
    } else {
        apart(f, a)
    };
    assert(f + along(d.0, j) == a && r + along(d.1, j) == b);
    assert forall|k: int|
        #![trigger at(s, f + along(d.0, k), r + along(d.1, k))]
        1 <= k < j implies at(s, f + along(d.0, k), r + along(d.1, k)) is None by {
        assert(f + along(a - f, k) == f + along(d.0, k));
        assert(r + along(b - r, k) == r + along(d.1, k));
        assert(at(s, f + along(a - f, k), r + along(b - r, k)) is None);
    }
    lemma_met_first(s, f, r, d, 1, j, 8);
    assert(f + d.0 == f + along(d.0, 1) && r + d.1 == r + along(d.1, 1));
    i
}

/// A square is attacked by a side if one of its pieces bears on it.
pub proof fn law_squares_are_attacked_by_pieces(
    s: Seq<Option<Piece>>,
    f: int,
    r: int,
    color: Color,
)
    requires
        on_board(f, r),
    ensures
        attacked(s, f, r, color) <==> exists|a: int, b: int|
            on_board(a, b) && (#[trigger] at(s, a, b)) is Some && at(s, a, b)->0.color == color
                && bears_on(s, at(s, a, b)->0, a, b, f, r),
{
    if attacked(s, f, r, color) {
        lemma_attackers(s, f, r, color);
    }
    if exists|a: int, b: int|
        on_board(a, b) && (#[trigger] at(s, a, b)) is Some && at(s, a, b)->0.color == color
            && bears_on(s, at(s, a, b)->0, a, b, f, r) {
        let (a, b) = choose|a: int, b: int|
            on_board(a, b) && (#[trigger] at(s, a, b)) is Some && at(s, a, b)->0.color == color
                && bears_on(s, at(s, a, b)->0, a, b, f, r);
        lemma_bearing_attacks(s, f, r, color, a, b);
    }
}

proof fn lemma_attackers(s: Seq<Option<Piece>>, f: int, r: int, color: Color)
    requires
        on_board(f, r),
        attacked(s, f, r, color),
    ensures
        exists|a: int, b: int|
            on_board(a, b) && (#[trigger] at(s, a, b)) is Some && at(s, a, b)->0.color == color
                && bears_on(s, at(s, a, b)->0, a, b, f, r),
{
    if holds(s, f - 1, r - color.forward(), color, PieceKind::Pawn) {
        assert(at(s, f - 1, r - color.forward()) is Some);
    } else if holds(s, f + 1, r - color.forward(), color, PieceKind::Pawn) {
        assert(at(s, f + 1, r - color.forward()) is Some);
    } else if exists|i: int|
        0 <= i < 8 && holds(
            s,
            f + (#[trigger] knight_step(i)).0,
            r + knight_step(i).1,
            color,
            PieceKind::Knight,
        ) {
        let i = choose|i: int|
            0 <= i < 8 && holds(
                s,
                f + (#[trigger] knight_step(i)).0,
                r + knight_step(i).1,
                color,
                PieceKind::Knight,
            );
        assert(at(s, f + knight_step(i).0, r + knight_step(i).1) is Some);
    } else if exists|i: int|
        0 <= i < 8 && holds(
            s,
            f + (#[trigger] king_step(i)).0,
            r + king_step(i).1,
            color,
            PieceKind::King,
        ) {
        let i = choose|i: int|
            0 <= i < 8 && holds(
                s,
                f + (#[trigger] king_step(i)).0,
                r + king_step(i).1,
                color,
                PieceKind::King,
            );
        assert(at(s, f + king_step(i).0, r + king_step(i).1) is Some);
    } else if exists|i: int| 0 <= i < 4 && #[trigger] ray_attack(s, f, r, color, false, i) {
        let i = choose|i: int| 0 <= i < 4 && #[trigger] ray_attack(s, f, r, color, false, i);
        lemma_rays(s, f, r, color, false, i);
    } else {
        let i = choose|i: int| 0 <= i < 4 && #[trigger] ray_attack(s, f, r, color, true, i);
        lemma_rays(s, f, r, color, true, i);
    }
}

proof fn lemma_bearing_attacks(
    s: Seq<Option<Piece>>,
    f: int,
    r: int,
    color: Color,
    a: int,
    b: int,
)
    requires
        on_board(f, r),
        on_board(a, b),
        at(s, a, b) is Some,
        at(s, a, b)->0.color == color,
        bears_on(s, at(s, a, b)->0, a, b, f, r),
    ensures
        attacked(s, f, r, color),
{
    let piece = at(s, a, b)->0;
    match piece.kind {
        PieceKind::Pawn => {},
        PieceKind::Knight => {
            let i = lemma_jumps(f, r, a, b);
            assert(holds(s, f + knight_step(i).0, r + knight_step(i).1, color, PieceKind::Knight));
        },
        PieceKind::King => {
            let i = lemma_steps(f, r, a, b);
            assert(holds(s, f + king_step(i).0, r + king_step(i).1, color, PieceKind::King));
        },
        PieceKind::Bishop => {
            let i = lemma_slides_bear(s, a, b, f, r, true);
            assert(ray_attack(s, f, r, color, true, i));
        },
        PieceKind::Rook => {
            let i = lemma_slides_bear(s, a, b, f, r, false);
            assert(ray_attack(s, f, r, color, false, i));
        },
        PieceKind::Queen => {
            let diagonal = on_diagonal(a, b, f, r);
            let i = lemma_slides_bear(s, a, b, f, r, diagonal);
            assert(ray_attack(s, f, r, color, diagonal, i));
        },
    }
}

/// Which of a knight's jumps one is.
proof fn lemma_jumps(f: int, r: int, g: int, q: int) -> (i: int)
    requires
        a_jump(f, r, g, q),
    ensures
        0 <= i < 8,
        knight_step(i) == (g - f, q - r),
{
    let d = (g - f, q - r);
    if knight_step(0) == d {
        0
    } else if knight_step(1) == d {
        1
    } else if knight_step(2) == d {
        2
    } else if knight_step(3) == d {
        3
    } else if knight_step(4) == d {
        4
    } else if knight_step(5) == d {
        5
    } else if knight_step(6) == d {
        6
    } else {
        7
    }
}

/// Which of a king's steps one is.
proof fn lemma_steps(f: int, r: int, g: int, q: int) -> (i: int)
    requires
        a_step(f, r, g, q),
    ensures
        0 <= i < 8,
        king_step(i) == (g - f, q - r),
{
    let d = (g - f, q - r);
    if king_step(0) == d {
        0
    } else if king_step(1) == d {
        1
    } else if king_step(2) == d {
        2
    } else if king_step(3) == d {
        3
    } else if king_step(4) == d {
        4
    } else if king_step(5) == d {
        5
    } else if king_step(6) == d {
        6
    } else {
        7
    }
}

/// A side whose king stands on one square alone is in check if the other side
/// attacks that square, and one without a king never is.
pub proof fn law_check_is_an_attack_on_the_king(s: Seq<Option<Piece>>, color: Color, k: int)
    requires
        s.len() == 64,
        0 <= k < 64,
        forall|i: int|
            0 <= i < 64 && i != k ==> (#[trigger] s[i]) != Some(
                Piece { color, kind: PieceKind::King },
            ),
    ensures
        s[k] == Some(Piece { color, kind: PieceKind::King }) ==> (in_check(s, color) <==> attacked(
            s,
            k % 8,
            k / 8,
            match color {
                Color::White => Color::Black,
                Color::Black => Color::White,
            },
        )),
        s[k] != Some(Piece { color, kind: PieceKind::King }) ==> !in_check(s, color),
{
    lemma_king_found(s, color, k, 0);
}

proof fn lemma_king_found(s: Seq<Option<Piece>>, color: Color, k: int, i: int)
    requires
        0 <= i <= 64,
        0 <= k < 64,
        forall|j: int|
            0 <= j < 64 && j != k ==> (#[trigger] s[j]) != Some(
                Piece { color, kind: PieceKind::King },
            ),
    ensures
        i <= k && s[k] == Some(Piece { color, kind: PieceKind::King }) ==> king_from(s, color, i)
            == Some(Square(k as u8)),
        i > k || s[k] != Some(Piece { color, kind: PieceKind::King }) ==> king_from(s, color, i)
            is None,
    decreases 64 - i,
{
    if i < 64 {
        lemma_king_found(s, color, k, i + 1);
    }
}

/// Whether a piece can make a move that a pawn makes: one square forward to an
/// empty square, two from where it started if both are empty, or one forward to
/// the side to take what stands there or is passing.
pub open spec fn pawn_can_go(p: Position, mv: Move) -> bool {
    let (f, r) = (mv.from.on_file(), mv.from.on_rank());
    let (g, q) = (mv.to.on_file(), mv.to.on_rank());
    let (ahead, home) = match p.side {
        Color::White => (1int, 1int),
        Color::Black => (-1int, 6int),
    };
    ||| f == g && q == r + ahead && at(p.squares, g, q) is None
    ||| f == g && q == r + 2 * ahead && r == home && at(p.squares, f, r + ahead) is None && at(
        p.squares,
        g,
        q,
    ) is None
    ||| apart(f, g) == 1 && q == r + ahead && (own_piece(
        at(p.squares, g, q),
        match p.side {
            Color::White => Color::Black,
            Color::Black => Color::White,
        },
    ) || p.en_passant == Some(mv.to))
}

/// Whether the king can castle: from its own square, with the right to do so and
/// the rook at home, over empty squares, while neither the square it stands on
/// nor those it crosses or comes to are attacked.
pub open spec fn can_castle(p: Position, mv: Move) -> bool {
    let (home, them) = match p.side {
        Color::White => (0int, Color::Black),
        Color::Black => (7int, Color::White),
    };
    let s = p.squares;
    let rook = Some(Piece { color: p.side, kind: PieceKind::Rook });
    let (short, long) = match p.side {
        Color::White => (p.castling.white_kingside, p.castling.white_queenside),
        Color::Black => (p.castling.black_kingside, p.castling.black_queenside),
    };
    &&& mv.from.on_file() == 4 && mv.from.on_rank() == home && mv.to.on_rank() == home
    &&& !attacked(s, 4, home, them)
    &&& {
        ||| {
            &&& mv.to.on_file() == 6 && short && at(s, 7, home) == rook
            &&& at(s, 5, home) is None && at(s, 6, home) is None
            &&& !attacked(s, 5, home, them) && !attacked(s, 6, home, them)
        }
        ||| {
            &&& mv.to.on_file() == 2 && long && at(s, 0, home) == rook
            &&& at(s, 1, home) is None && at(s, 2, home) is None && at(s, 3, home) is None
            &&& !attacked(s, 3, home, them) && !attacked(s, 2, home, them)
        }
    }
}

/// Whether the side to move has a piece that goes as a move does, its own king's
/// safety aside.
pub open spec fn can_go(p: Position, mv: Move) -> bool {
    let s = p.squares;
    let (f, r) = (mv.from.on_file(), mv.from.on_rank());
    let (g, q) = (mv.to.on_file(), mv.to.on_rank());
    let here = at(s, f, r);
    let kind = here->0.kind;
    let last = match p.side {
        Color::White => 7int,
        Color::Black => 0int,
    };
    &&& mv.from.valid() && mv.to.valid()
    &&& own_piece(here, p.side)
    &&& mv.promotion is Some <==> kind == PieceKind::Pawn && q == last
    &&& mv.promotion is Some ==> mv.promotion->0 != PieceKind::Pawn && mv.promotion->0
        != PieceKind::King
    &&& match kind {
        PieceKind::Pawn => pawn_can_go(p, mv),
        PieceKind::Knight => a_jump(f, r, g, q) && !own_piece(at(s, g, q), p.side),
        PieceKind::King => (a_step(f, r, g, q) && !own_piece(at(s, g, q), p.side)) || can_castle(
            p,
            mv,
        ),
        PieceKind::Bishop => on_diagonal(f, r, g, q) && clear_between(s, f, r, g, q)
            && !own_piece(at(s, g, q), p.side),
        PieceKind::Rook => on_row(f, r, g, q) && clear_between(s, f, r, g, q) && !own_piece(
            at(s, g, q),
            p.side,
        ),
        PieceKind::Queen => (on_diagonal(f, r, g, q) || on_row(f, r, g, q)) && clear_between(
            s,
            f,
            r,
            g,
            q,
        ) && !own_piece(at(s, g, q), p.side),
    }
}

proof fn lemma_at(s: Seq<Option<Piece>>, sq: Square)
    requires
        sq.valid(),
    ensures
        on_board(sq.on_file(), sq.on_rank()),
        at(s, sq.on_file(), sq.on_rank()) == s[sq.0 as int],
        square_at(sq.on_file(), sq.on_rank()) == Some(sq),
{
}

proof fn lemma_square_at(f: int, r: int, sq: Square)
    ensures
        square_at(f, r) == Some(sq) <==> sq.valid() && sq.on_file() == f && sq.on_rank() == r,
{
    if on_board(f, r) {
        assert((r * 8 + f) % 8 == f && (r * 8 + f) / 8 == r);
    } else if sq.valid() {
        lemma_at(Seq::empty(), sq);
    }
}

proof fn lemma_in_sum(a: Seq<Move>, b: Seq<Move>, mv: Move)
    ensures
        (a + b).contains(mv) <==> a.contains(mv) || b.contains(mv),
{
    if a.contains(mv) {
        let i = choose|i: int| 0 <= i < a.len() && a[i] == mv;
        assert((a + b)[i] == mv);
    }
    if b.contains(mv) {
        let i = choose|i: int| 0 <= i < b.len() && b[i] == mv;
        assert((a + b)[a.len() + i] == mv);
    }
    if (a + b).contains(mv) {
        let i = choose|i: int| 0 <= i < (a + b).len() && (a + b)[i] == mv;
        if i < a.len() {
            assert(a[i] == mv);
        } else {
            assert(b[i - a.len()] == mv);
        }
    }
}

spec fn either_step(knight: bool, j: int) -> (int, int) {
    if knight {
        knight_step(j)
    } else {
        king_step(j)
    }
}

/// The steps that are listed are those to squares without an own piece.
proof fn lemma_steps_listed(
    s: Seq<Option<Piece>>,
    from: Square,
    me: Color,
    knight: bool,
    n: nat,
    mv: Move,
)
    ensures
        step_moves(s, from, me, knight, n).contains(mv) <==> {
            &&& mv.from == from && mv.promotion is None && mv.to.valid()
            &&& !own_piece(s[mv.to.0 as int], me)
            &&& exists|j: int|
                0 <= j < n && mv.to.on_file() == from.on_file() + (#[trigger] either_step(
                    knight,
                    j,
                )).0 && mv.to.on_rank() == from.on_rank() + either_step(knight, j).1
        },
    decreases n,
{
    if n > 0 {
        let less = (n - 1) as nat;
        lemma_steps_listed(s, from, me, knight, less, mv);
        let rest = step_moves(s, from, me, knight, less);
        let d = either_step(knight, n - 1);
        let (f, r) = (from.on_file() + d.0, from.on_rank() + d.1);
        lemma_square_at(f, r, mv.to);
        match square_at(f, r) {
            Some(to) => {
                lemma_square_at(f, r, to);
                let one = seq![Move { from, to, promotion: None }];
                lemma_in_sum(rest, one, mv);
                assert(rest + one =~= rest.push(one[0]));
                assert(one.contains(mv) <==> mv == one[0]) by {
                    assert(one[0] == one[0]);
                }
            },
            None => {},
        }
    }
}

/// The squares that a ray lists are those up to the first piece, and that one's
/// where it is not an own one.
proof fn lemma_ray_listed(
    s: Seq<Option<Piece>>,
    from: Square,
    me: Color,
    d: (int, int),
    k: int,
    n: nat,
    mv: Move,
)
    requires
        unit(d),
        from.valid(),
        k >= 1,
    ensures
        ray_moves(
            s,
            from,
            me,
            from.on_file() + along(d.0, k),
            from.on_rank() + along(d.1, k),
            d,
            n,
        ).contains(mv) <==> exists|j: int| #[trigger] listed_at(s, from, me, d, k, n, mv, j),
    decreases n,
{
    let (f, r) = (from.on_file() + along(d.0, k), from.on_rank() + along(d.1, k));
    lemma_at(s, from);
    if n > 0 {
        lemma_square_at(f, r, mv.to);
        match square_at(f, r) {
            None => {
                assert forall|j: int| !#[trigger] listed_at(s, from, me, d, k, n, mv, j) by {
                    if listed_at(s, from, me, d, k, n, mv, j) {
                        lemma_at(s, mv.to);
                        assert(on_board(from.on_file() + along(d.0, j), from.on_rank() + along(d.1, j)));
                        assert(on_board(f, r));
                    }
                }
            },
            Some(to) => {
                lemma_square_at(f, r, to);
                lemma_at(s, to);
                let one = Move { from, to, promotion: None };
                let ones = seq![one];
                assert(ones.contains(mv) <==> mv == one) by {
                    assert(ones[0] == one);
                }
                assert(at(s, f, r) == s[to.0 as int]);
                assert(f + d.0 == from.on_file() + along(d.0, k + 1));
                assert(r + d.1 == from.on_rank() + along(d.1, k + 1));
                if s[to.0 as int] is None {
                    let less = (n - 1) as nat;
                    lemma_ray_listed(s, from, me, d, k + 1, less, mv);
                    let rest = ray_moves(s, from, me, f + d.0, r + d.1, d, less);
                    lemma_in_sum(ones, rest, mv);
                    if mv == one {
                        assert(listed_at(s, from, me, d, k, n, mv, k));
                    }
                    assert forall|j: int| #[trigger]
                        listed_at(s, from, me, d, k + 1, less, mv, j) implies listed_at(
                        s,
                        from,
                        me,
                        d,
                        k,
                        n,
                        mv,
                        j,
                    ) by {}
                    assert forall|j: int| #[trigger] listed_at(s, from, me, d, k, n, mv, j) implies mv
                        == one || listed_at(s, from, me, d, k + 1, less, mv, j) by {
                        if j == k {
                            assert(mv.to == to);
                        }
                    }
                } else {
                    if mv == one && !own_piece(s[to.0 as int], me) {
                        assert(listed_at(s, from, me, d, k, n, mv, k));
                    }
                    assert forall|j: int| #[trigger] listed_at(s, from, me, d, k, n, mv, j) implies mv
                        == one && !own_piece(s[to.0 as int], me) by {
                        if j > k {
                            assert(at(s, f, r) is None);
                        }
                        assert(mv.to == to);
                    }
                }
            },
        }
    }
}

/// Whether a move goes some steps along a ray, over nothing, to no own piece.
spec fn listed_at(
    s: Seq<Option<Piece>>,
    from: Square,
    me: Color,
    d: (int, int),
    k: int,
    n: nat,
    mv: Move,
    j: int,
) -> bool {
    let (f, r) = (from.on_file(), from.on_rank());
    &&& k <= j < k + n
    &&& mv.from == from && mv.promotion is None && mv.to.valid()
    &&& mv.to.on_file() == f + along(d.0, j) && mv.to.on_rank() == r + along(d.1, j)
    &&& !own_piece(s[mv.to.0 as int], me)
    &&& forall|i: int|
        #![trigger at(s, f + along(d.0, i), r + along(d.1, i))]
        k <= i < j ==> at(s, f + along(d.0, i), r + along(d.1, i)) is None
}

/// The slides that are listed are those along clear lines.
proof fn lemma_slides_listed(
    s: Seq<Option<Piece>>,
    from: Square,
    me: Color,
    diagonal: bool,
    n: nat,
    mv: Move,
)
    requires
        from.valid(),
        n <= 4,
    ensures
        slide_moves(s, from, me, diagonal, n).contains(mv) <==> exists|i: int, j: int|
            0 <= i < n && #[trigger] listed_at(s, from, me, slide_step(diagonal, i), 1, 8, mv, j),
    decreases n,
{
    if n > 0 {
        let less = (n - 1) as nat;
        lemma_slides_listed(s, from, me, diagonal, less, mv);
        let d = slide_step(diagonal, n - 1);
        lemma_ray_listed(s, from, me, d, 1, 8, mv);
        assert(along(d.0, 1) == d.0 && along(d.1, 1) == d.1);
        let before = slide_moves(s, from, me, diagonal, less);
        let ray = ray_moves(s, from, me, from.on_file() + d.0, from.on_rank() + d.1, d, 8);
        lemma_in_sum(before, ray, mv);
        if before.contains(mv) {
            let (i, j) = choose|i: int, j: int|
                0 <= i < less && #[trigger] listed_at(
                    s,
                    from,
                    me,
                    slide_step(diagonal, i),
                    1,
                    8,
                    mv,
                    j,
                );
            assert(0 <= i < n && listed_at(s, from, me, slide_step(diagonal, i), 1, 8, mv, j));
        }
        if ray.contains(mv) {
            let j = choose|j: int| #[trigger] listed_at(s, from, me, d, 1, 8, mv, j);
            assert(listed_at(s, from, me, slide_step(diagonal, n - 1), 1, 8, mv, j));
        }
        if exists|i: int, j: int|
            0 <= i < n && #[trigger] listed_at(s, from, me, slide_step(diagonal, i), 1, 8, mv, j) {
            let (i, j) = choose|i: int, j: int|
                0 <= i < n && #[trigger] listed_at(s, from, me, slide_step(diagonal, i), 1, 8, mv, j);
            if i < less {
                assert(0 <= i < less && listed_at(
                    s,
                    from,
                    me,
                    slide_step(diagonal, i),
                    1,
                    8,
                    mv,
                    j,
                ));
            } else {
                assert(listed_at(s, from, me, d, 1, 8, mv, j));
            }
        }
    }
}

/// A slide goes to a square on one line with the first, with nothing between.
proof fn lemma_slides_are_lines(
    s: Seq<Option<Piece>>,
    from: Square,
    me: Color,
    diagonal: bool,
    mv: Move,
)
    requires
        from.valid(),
    ensures
        slide_moves(s, from, me, diagonal, 4).contains(mv) <==> {
            let (f, r) = (from.on_file(), from.on_rank());
            let (g, q) = (mv.to.on_file(), mv.to.on_rank());
            &&& mv.from == from && mv.promotion is None && mv.to.valid()
            &&& !own_piece(s[mv.to.0 as int], me)
            &&& diagonal ==> on_diagonal(f, r, g, q)
            &&& !diagonal ==> on_row(f, r, g, q)
            &&& clear_between(s, f, r, g, q)
        },
{
    let (f, r) = (from.on_file(), from.on_rank());
    let (g, q) = (mv.to.on_file(), mv.to.on_rank());
    lemma_slides_listed(s, from, me, diagonal, 4, mv);
    lemma_at(s, from);
    if slide_moves(s, from, me, diagonal, 4).contains(mv) {
        let (i, j) = choose|i: int, j: int|
            0 <= i < 4 && #[trigger] listed_at(s, from, me, slide_step(diagonal, i), 1, 8, mv, j);
        let d = slide_step(diagonal, i);
        assert(clear_between(s, f, r, g, q)) by {
            assert forall|k: int|
                #![trigger at(s, f + along(g - f, k), r + along(q - r, k))]
                0 < k < apart(f, g) || 0 < k < apart(r, q) implies at(
                s,
                f + along(g - f, k),
                r + along(q - r, k),
            ) is None by {
                assert(f + along(g - f, k) == f + along(d.0, k));
                assert(r + along(q - r, k) == r + along(d.1, k));
                assert(at(s, f + along(d.0, k), r + along(d.1, k)) is None);
            }
        }
    }
    if mv.to.valid() && (diagonal ==> on_diagonal(f, r, g, q)) && (!diagonal ==> on_row(f, r, g, q))
        && clear_between(s, f, r, g, q) && mv.from == from && mv.promotion is None && !own_piece(
        s[mv.to.0 as int],
        me,
    ) {
        lemma_at(s, mv.to);
        let d = way_of(f, r, g, q);
        let i = lemma_ways(diagonal, d);
        let j = if f == g {
            apart(r, q)
        } else {
            apart(f, g)
        };
        assert forall|k: int|
            #![trigger at(s, f + along(d.0, k), r + along(d.1, k))]
            1 <= k < j implies at(s, f + along(d.0, k), r + along(d.1, k)) is None by {
            assert(f + along(g - f, k) == f + along(d.0, k));
            assert(r + along(q - r, k) == r + along(d.1, k));
            assert(at(s, f + along(g - f, k), r + along(q - r, k)) is None);
        }
        assert(listed_at(s, from, me, slide_step(diagonal, i), 1, 8, mv, j));
    }
}

/// A pawn that arrives on the last rank becomes another piece, and no other
/// does.
proof fn lemma_arrivals_listed(from: Square, to: Square, me: Color, mv: Move)
    ensures
        pawn_arrivals(from, to, me).contains(mv) <==> {
            &&& mv.from == from && mv.to == to
            &&& mv.promotion is Some <==> to.on_rank() == me.last_rank()
            &&& mv.promotion is Some ==> mv.promotion->0 != PieceKind::Pawn && mv.promotion->0
                != PieceKind::King
        },
{
    let list = pawn_arrivals(from, to, me);
    if to.on_rank() == me.last_rank() {
        assert(list[0].promotion == Some(PieceKind::Queen));
        assert(list[1].promotion == Some(PieceKind::Rook));
        assert(list[2].promotion == Some(PieceKind::Bishop));
        assert(list[3].promotion == Some(PieceKind::Knight));
        if list.contains(mv) {
            let i = choose|i: int| 0 <= i < list.len() && list[i] == mv;
            assert(i == 0 || i == 1 || i == 2 || i == 3);
        }
        if mv.from == from && mv.to == to && mv.promotion is Some {
            match mv.promotion->0 {
                PieceKind::Queen => {
                    assert(list[0] == mv);
                },
                PieceKind::Rook => {
                    assert(list[1] == mv);
                },
                PieceKind::Bishop => {
                    assert(list[2] == mv);
                },
                PieceKind::Knight => {
                    assert(list[3] == mv);
                },
                _ => {},
            }
        }
    } else {
        assert(list[0] == (Move { from, to, promotion: None }));
    }
}

proof fn lemma_advances_listed(s: Seq<Option<Piece>>, from: Square, me: Color, mv: Move)
    requires
        from.valid(),
    ensures
        pawn_advances(s, from, me).contains(mv) <==> {
            let (f, r) = (from.on_file(), from.on_rank());
            let (g, q) = (mv.to.on_file(), mv.to.on_rank());
            &&& mv.from == from && mv.to.valid() && f == g
            &&& mv.promotion is Some <==> q == me.last_rank()
            &&& mv.promotion is Some ==> mv.promotion->0 != PieceKind::Pawn && mv.promotion->0
                != PieceKind::King
            &&& {
                ||| q == r + me.forward() && at(s, g, q) is None
                ||| q == r + 2 * me.forward() && r == me.pawn_home() && at(s, g, q) is None && at(
                    s,
                    f,
                    r + me.forward(),
                ) is None
            }
        },
{
    let (f, r) = (from.on_file(), from.on_rank());
    lemma_at(s, from);
    lemma_square_at(f, r + me.forward(), mv.to);
    lemma_square_at(f, r + 2 * me.forward(), mv.to);
    if mv.to.valid() {
        lemma_at(s, mv.to);
    }
    match square_at(f, r + me.forward()) {
        Some(one) => {
            lemma_square_at(f, r + me.forward(), one);
            lemma_at(s, one);
            if s[one.0 as int] is None {
                let steps = pawn_arrivals(from, one, me);
                lemma_arrivals_listed(from, one, me, mv);
                match square_at(f, r + 2 * me.forward()) {
                    Some(two) => {
                        lemma_square_at(f, r + 2 * me.forward(), two);
                        lemma_at(s, two);
                        let jump = seq![Move { from, to: two, promotion: None }];
                        assert(jump.contains(mv) <==> mv == jump[0]) by {
                            assert(jump[0] == jump[0]);
                        }
                        lemma_in_sum(steps, jump, mv);
                        lemma_in_sum(steps, Seq::empty(), mv);
                    },
                    None => {
                        lemma_in_sum(steps, Seq::empty(), mv);
                    },
                }
            }
        },
        None => {},
    }
}

proof fn lemma_captures_listed(p: Position, from: Square, me: Color, df: int, mv: Move)
    requires
        from.valid(),
        df == 1 || df == -1,
    ensures
        pawn_captures(p, from, me, df).contains(mv) <==> {
            let (g, q) = (mv.to.on_file(), mv.to.on_rank());
            &&& mv.from == from && mv.to.valid()
            &&& g == from.on_file() + df && q == from.on_rank() + me.forward()
            &&& mv.promotion is Some <==> q == me.last_rank()
            &&& mv.promotion is Some ==> mv.promotion->0 != PieceKind::Pawn && mv.promotion->0
                != PieceKind::King
            &&& own_piece(at(p.squares, g, q), me.other()) || p.en_passant == Some(mv.to)
        },
{
    let (f, r) = (from.on_file() + df, from.on_rank() + me.forward());
    lemma_square_at(f, r, mv.to);
    if mv.to.valid() {
        lemma_at(p.squares, mv.to);
    }
    match square_at(f, r) {
        Some(to) => {
            lemma_square_at(f, r, to);
            lemma_at(p.squares, to);
            lemma_arrivals_listed(from, to, me, mv);
        },
        None => {},
    }
}

proof fn lemma_castling_listed(p: Position, mv: Move)
    ensures
        castling_moves(p, p.side).contains(mv) <==> {
            &&& mv.from.valid() && mv.to.valid() && mv.promotion is None
            &&& at(p.squares, mv.from.on_file(), mv.from.on_rank()) == Some(
                Piece { color: p.side, kind: PieceKind::King },
            )
            &&& can_castle(p, mv)
        },
{
    let me = p.side;
    let home = me.home_rank();
    let short = seq![Move { from: home_square(me, 4), to: home_square(me, 6), promotion: None }];
    let long = seq![Move { from: home_square(me, 4), to: home_square(me, 2), promotion: None }];
    let none = Seq::<Move>::empty();
    lemma_square_at(4, home, mv.from);
    lemma_square_at(6, home, mv.to);
    lemma_square_at(2, home, mv.to);
    assert(short.contains(mv) <==> mv == short[0]) by {
        assert(short[0] == short[0]);
    }
    assert(long.contains(mv) <==> mv == long[0]) by {
        assert(long[0] == long[0]);
    }
    let a = if can_castle_kingside(p, me) {
        short
    } else {
        none
    };
    let b = if can_castle_queenside(p, me) {
        long
    } else {
        none
    };
    lemma_in_sum(a, b, mv);
    assert(square_at(4, home) == Some(home_square(me, 4)));
    assert(square_at(6, home) == Some(home_square(me, 6)));
    assert(square_at(2, home) == Some(home_square(me, 2)));
}

/// What a square's piece is listed for goes as its kind goes.
proof fn lemma_moves_from_go(p: Position, from: Square, mv: Move)
    requires
        from.valid(),
        moves_from(p, from).contains(mv),
    ensures
        can_go(p, mv),
{
    let s = p.squares;
    let piece = s[from.0 as int]->0;
    lemma_at(s, from);
    if mv.to.valid() {
        lemma_at(s, mv.to);
    }
    match piece.kind {
        PieceKind::Pawn => {
            let steps = pawn_advances(s, from, p.side);
            let left = pawn_captures(p, from, p.side, -1);
            let right = pawn_captures(p, from, p.side, 1);
            lemma_in_sum(steps + left, right, mv);
            lemma_in_sum(steps, left, mv);
            lemma_advances_listed(s, from, p.side, mv);
            lemma_captures_listed(p, from, p.side, -1, mv);
            lemma_captures_listed(p, from, p.side, 1, mv);
        },
        PieceKind::Knight => {
            lemma_steps_listed(s, from, p.side, true, 8, mv);
        },
        PieceKind::King => {
            let steps = step_moves(s, from, p.side, false, 8);
            lemma_in_sum(steps, castling_moves(p, p.side), mv);
            lemma_steps_listed(s, from, p.side, false, 8, mv);
            lemma_castling_listed(p, mv);
        },
        PieceKind::Bishop => {
            lemma_slides_are_lines(s, from, p.side, true, mv);
        },
        PieceKind::Rook => {
            lemma_slides_are_lines(s, from, p.side, false, mv);
        },
        PieceKind::Queen => {
            lemma_in_sum(
                slide_moves(s, from, p.side, true, 4),
                slide_moves(s, from, p.side, false, 4),
                mv,
            );
            lemma_slides_are_lines(s, from, p.side, true, mv);
            lemma_slides_are_lines(s, from, p.side, false, mv);
        },
    }
}

/// What goes as its kind goes is listed for its square.
proof fn lemma_going_is_listed(p: Position, mv: Move)
    requires
        can_go(p, mv),
    ensures
        moves_from(p, mv.from).contains(mv),
{
    let (s, from) = (p.squares, mv.from);
    let piece = s[from.0 as int]->0;
    let (f, r) = (mv.from.on_file(), mv.from.on_rank());
    let (g, q) = (mv.to.on_file(), mv.to.on_rank());
    lemma_at(s, from);
    lemma_at(s, mv.to);
    match piece.kind {
        PieceKind::Pawn => {
            let steps = pawn_advances(s, from, p.side);
            let left = pawn_captures(p, from, p.side, -1);
            let right = pawn_captures(p, from, p.side, 1);
            lemma_in_sum(steps + left, right, mv);
            lemma_in_sum(steps, left, mv);
            lemma_advances_listed(s, from, p.side, mv);
            lemma_captures_listed(p, from, p.side, -1, mv);
            lemma_captures_listed(p, from, p.side, 1, mv);
        },
        PieceKind::Knight => {
            lemma_steps_listed(s, from, p.side, true, 8, mv);
            let j = lemma_jumps(f, r, g, q);
            assert(either_step(true, j) == (g - f, q - r));
        },
        PieceKind::King => {
            let steps = step_moves(s, from, p.side, false, 8);
            lemma_in_sum(steps, castling_moves(p, p.side), mv);
            lemma_steps_listed(s, from, p.side, false, 8, mv);
            lemma_castling_listed(p, mv);
            if a_step(f, r, g, q) {
                let j = lemma_steps(f, r, g, q);
                assert(either_step(false, j) == (g - f, q - r));
            }
        },
        PieceKind::Bishop => {
            lemma_slides_are_lines(s, from, p.side, true, mv);
        },
        PieceKind::Rook => {
            lemma_slides_are_lines(s, from, p.side, false, mv);
        },
        PieceKind::Queen => {
            lemma_in_sum(
                slide_moves(s, from, p.side, true, 4),
                slide_moves(s, from, p.side, false, 4),
                mv,
            );
            lemma_slides_are_lines(s, from, p.side, true, mv);
            lemma_slides_are_lines(s, from, p.side, false, mv);
        },
    }
}

proof fn lemma_pseudo_listed(p: Position, n: nat, mv: Move)
    requires
        n <= 64,
    ensures
        pseudo_moves(p, n).contains(mv) ==> exists|i: int|
            0 <= i < n && (#[trigger] moves_from(p, Square(i as u8))).contains(mv),
        forall|i: int|
            0 <= i < n && (#[trigger] moves_from(p, Square(i as u8))).contains(mv) ==> pseudo_moves(
                p,
                n,
            ).contains(mv),
    decreases n,
{
    if n > 0 {
        let less = (n - 1) as nat;
        lemma_pseudo_listed(p, less, mv);
        lemma_in_sum(pseudo_moves(p, less), moves_from(p, Square((n - 1) as u8)), mv);
    }
}

/// A move is legal if a piece of the side to move goes that way and the move
/// leaves that side's king out of check.
pub proof fn law_legal_moves_go_as_the_pieces_do(p: Position, mv: Move)
    ensures
        legal_moves(p).contains(mv) <==> can_go(p, mv) && !in_check(
            super::rules::apply(p, mv).squares,
            p.side,
        ),
{
    super::laws::law_legal_moves(p, mv);
    lemma_pseudo_listed(p, 64, mv);
    if pseudo_moves(p, 64).contains(mv) {
        let i = choose|i: int|
            0 <= i < 64 && (#[trigger] moves_from(p, Square(i as u8))).contains(mv);
        lemma_moves_from_go(p, Square(i as u8), mv);
        lemma_at(p.squares, mv.from);
    }
    if can_go(p, mv) {
        lemma_going_is_listed(p, mv);
        lemma_at(p.squares, mv.from);
        assert(Square((mv.from.0 as int) as u8) == mv.from);
        assert(moves_from(p, Square((mv.from.0 as int) as u8)).contains(mv));
    }
}

} // verus!
