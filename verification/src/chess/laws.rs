//! What holds of the rules as a whole.

use super::board::empty_position;
use super::fen::{
    read_castling, read_counter, read_en_passant, read_fen, read_flags, read_rank, read_ranks,
    read_row, read_side,
};
use super::rules::{
    at, en_passant_matters, en_passant_text, fen_text, keep_safe, keeps_king_safe, key_char,
    legal_moves, placement_text, position_key, pseudo_moves, rank_text, row_text, run_text, side_char, Position,
};
use super::types::{
    castling_flags, castling_text, flag, law_piece_char_reads_back, law_square_name_reads_back,
    piece_char, square_name, CastlingRights, Color, Move, Piece, Square,
};
use crate::text::{
    digit_value, digits, lemma_digits_read_back, lemma_parts_cons, lemma_parts_single,
    lemma_u32_reads_back, lemma_words_cons, lemma_words_single, parts, white_space, words,
};
use vstd::prelude::*;

verus! {

/// `s0`, with the first `k` files of rank `r` as they are in `s`.
spec fn mix(s0: Seq<Option<Piece>>, s: Seq<Option<Piece>>, r: int, k: int) -> Seq<Option<Piece>> {
    Seq::new(
        64,
        |i: int|
            if i / 8 == r && i % 8 < k {
                s[i]
            } else {
                s0[i]
            },
    )
}

/// A run of empty squares is read as that many files.
proof fn lemma_run_reads_back(
    s0: Seq<Option<Piece>>,
    text: Seq<char>,
    r: int,
    squares: Seq<Option<Piece>>,
    file: int,
    run: nat,
)
    requires
        run <= 8,
        read_row(s0, text, r) == Ok::<(Seq<Option<Piece>>, int), Seq<char>>((squares, file)),
    ensures
        read_row(s0, text + run_text(run), r) == Ok::<(Seq<Option<Piece>>, int), Seq<char>>(
            (squares, file + run),
        ),
{
    if run == 0 {
        assert(text + run_text(run) =~= text);
    } else {
        let whole = text + run_text(run);
        assert(digits(run).len() == 1);
        assert(whole.drop_last() =~= text);
        assert(whole.last() == digits(run)[0]);
        assert(digit_value(digits(run)[0]) == Some(run as int));
    }
}

/// What has been written of a rank reads as what stands there.
proof fn lemma_row_reads_back(s0: Seq<Option<Piece>>, s: Seq<Option<Piece>>, r: int, n: nat)
    requires
        s0.len() == 64,
        s.len() == 64,
        0 <= r < 8,
        n <= 8,
        forall|i: int| 0 <= i < 64 && i / 8 == r ==> s0[i] is None,
    ensures
        row_text(s, r, n).1 <= n,
        forall|f: int| n - row_text(s, r, n).1 <= f < n ==> #[trigger] at(s, f, r) is None,
        read_row(s0, row_text(s, r, n).0, r) == Ok::<(Seq<Option<Piece>>, int), Seq<char>>(
            (mix(s0, s, r, n - row_text(s, r, n).1), n - row_text(s, r, n).1),
        ),
    decreases n,
{
    if n == 0 {
        assert(mix(s0, s, r, 0) =~= s0);
    } else {
        let m = (n - 1) as nat;
        lemma_row_reads_back(s0, s, r, m);
        let (text, run) = row_text(s, r, m);
        match at(s, n - 1, r) {
            None => {},
            Some(piece) => {
                let squares = mix(s0, s, r, m - run);
                lemma_run_reads_back(s0, text, r, squares, m - run, run);
                assert(squares =~= mix(s0, s, r, m as int)) by {
                    assert forall|i: int| 0 <= i < 64 implies squares[i] == mix(
                        s0,
                        s,
                        r,
                        m as int,
                    )[i] by {
                        if i / 8 == r && m - run <= i % 8 < m {
                            assert(at(s, i % 8, r) is None);
                            assert(r * 8 + i % 8 == i);
                        }
                    }
                }
                let before = text + run_text(run);
                let whole = before + seq![piece_char(piece)];
                assert(whole.drop_last() =~= before);
                law_piece_char_reads_back(piece);
                assert(digit_value(piece_char(piece)) is None);
                assert(mix(s0, s, r, m as int).update(r * 8 + m, Some(piece)) =~= mix(
                    s0,
                    s,
                    r,
                    n as int,
                ));
            },
        }
    }
}

/// A rank that was written reads as what stands there.
proof fn lemma_rank_reads_back(s0: Seq<Option<Piece>>, s: Seq<Option<Piece>>, r: int)
    requires
        s0.len() == 64,
        s.len() == 64,
        0 <= r < 8,
        forall|i: int| 0 <= i < 64 && i / 8 == r ==> s0[i] is None,
    ensures
        read_rank(s0, rank_text(s, r), r) == Ok::<Seq<Option<Piece>>, Seq<char>>(
            mix(s0, s, r, 8),
        ),
{
    lemma_row_reads_back(s0, s, r, 8);
    let (text, run) = row_text(s, r, 8);
    lemma_run_reads_back(s0, text, r, mix(s0, s, r, 8 - run), 8 - run, run);
    assert(mix(s0, s, r, 8 - run) =~= mix(s0, s, r, 8)) by {
        assert forall|i: int| 0 <= i < 64 implies mix(s0, s, r, 8 - run)[i] == mix(s0, s, r, 8)[i] by {
            if i / 8 == r && 8 - run <= i % 8 < 8 {
                assert(at(s, i % 8, r) is None);
                assert(r * 8 + i % 8 == i);
            }
        }
    }
}

/// The ranks as they are written, from the eighth down.
spec fn rank_texts(s: Seq<Option<Piece>>, n: nat) -> Seq<Seq<char>> {
    Seq::new(n, |i: int| rank_text(s, 7 - i))
}

/// What stands on the `n` upper ranks.
spec fn upper(s: Seq<Option<Piece>>, n: int) -> Seq<Option<Piece>> {
    Seq::new(
        64,
        |i: int|
            if i / 8 >= 8 - n {
                s[i]
            } else {
                None
            },
    )
}

proof fn lemma_ranks_read_back(s: Seq<Option<Piece>>, n: nat)
    requires
        s.len() == 64,
        n <= 8,
    ensures
        read_ranks(rank_texts(s, 8), n) == Ok::<Seq<Option<Piece>>, Seq<char>>(upper(s, n as int)),
    decreases n,
{
    if n == 0 {
        assert(upper(s, 0) =~= empty_position().squares);
    } else {
        lemma_ranks_read_back(s, (n - 1) as nat);
        lemma_rank_reads_back(upper(s, n - 1), s, 8 - n);
        assert(mix(upper(s, n - 1), s, 8 - n, 8) =~= upper(s, n as int));
        assert(rank_texts(s, 8)[n - 1] == rank_text(s, 8 - n));
    }
}

/// A text with neither white space nor a slash in it.
spec fn plain(s: Seq<char>) -> bool {
    forall|i: int| 0 <= i < s.len() ==> !white_space(#[trigger] s[i]) && s[i] != '/'
}

proof fn lemma_plain_join(a: Seq<char>, b: Seq<char>)
    requires
        plain(a),
        plain(b),
    ensures
        plain(a + b),
{
    assert forall|i: int| 0 <= i < (a + b).len() implies !white_space(#[trigger] (a + b)[i]) && (a
        + b)[i] != '/' by {
        if i < a.len() {
            assert((a + b)[i] == a[i]);
        } else {
            assert((a + b)[i] == b[i - a.len()]);
        }
    }
}

proof fn lemma_digits_plain(n: nat)
    ensures
        plain(digits(n)),
        digits(n).len() > 0,
{
    lemma_digits_read_back(n);
}

proof fn lemma_row_plain(s: Seq<Option<Piece>>, r: int, n: nat)
    ensures
        plain(row_text(s, r, n).0),
    decreases n,
{
    if n > 0 {
        let m = (n - 1) as nat;
        lemma_row_plain(s, r, m);
        let (text, run) = row_text(s, r, m);
        if let Some(piece) = at(s, n - 1, r) {
            lemma_digits_plain(run);
            lemma_plain_join(text, run_text(run));
            lemma_plain_join(text + run_text(run), seq![piece_char(piece)]);
        }
    }
}

proof fn lemma_rank_plain(s: Seq<Option<Piece>>, r: int)
    ensures
        plain(rank_text(s, r)),
        rank_text(s, r).len() > 0,
{
    lemma_row_plain(s, r, 8);
    let (text, run) = row_text(s, r, 8);
    lemma_digits_plain(run);
    lemma_plain_join(text, run_text(run));
    if run == 0 {
        assert(row_text(s, r, 8).0.len() > 0);
    }
}

/// The written board, split at the slashes, is the written ranks.
proof fn lemma_placement_parts(s: Seq<Option<Piece>>, n: nat, rest: Seq<char>)
    requires
        1 <= n <= 8,
    ensures
        parts(placement_text(s, n) + seq!['/'] + rest, '/') == rank_texts(s, n) + parts(rest, '/'),
    decreases n,
{
    lemma_rank_plain(s, 8 - n);
    if n == 1 {
        lemma_parts_cons(rank_text(s, 7), '/', rest);
        assert(rank_texts(s, 1) =~= seq![rank_text(s, 7)]);
    } else {
        let m = (n - 1) as nat;
        let last = rank_text(s, 8 - n);
        lemma_placement_parts(s, m, last + seq!['/'] + rest);
        assert(placement_text(s, n) + seq!['/'] + rest =~= placement_text(s, m) + seq!['/'] + (last
            + seq!['/'] + rest));
        lemma_parts_cons(last, '/', rest);
        assert(rank_texts(s, n) =~= rank_texts(s, m).push(last));
        assert(rank_texts(s, m) + (seq![last] + parts(rest, '/')) =~= rank_texts(s, n) + parts(
            rest,
            '/',
        ));
    }
}

proof fn lemma_board_parts(s: Seq<Option<Piece>>)
    ensures
        parts(placement_text(s, 8), '/') == rank_texts(s, 8),
{
    let last = rank_text(s, 0);
    lemma_rank_plain(s, 0);
    lemma_placement_parts(s, 7, last);
    lemma_parts_single(last, '/');
    assert(placement_text(s, 8) == placement_text(s, 7) + seq!['/'] + last);
    assert(rank_texts(s, 7) + seq![last] =~= rank_texts(s, 8));
}

/// No white space occurs in the written board.
proof fn lemma_placement_solid(s: Seq<Option<Piece>>, n: nat)
    requires
        1 <= n <= 8,
    ensures
        placement_text(s, n).len() > 0,
        forall|i: int|
            0 <= i < placement_text(s, n).len() ==> !white_space(#[trigger] placement_text(s, n)[i]),
    decreases n,
{
    lemma_rank_plain(s, 8 - n);
    if n > 1 {
        let m = (n - 1) as nat;
        lemma_placement_solid(s, m);
        let front = placement_text(s, m);
        let last = rank_text(s, 8 - n);
        assert forall|i: int| 0 <= i < placement_text(s, n).len() implies !white_space(
            #[trigger] placement_text(s, n)[i],
        ) by {
            if i < front.len() {
                assert(placement_text(s, n)[i] == front[i]);
            } else if i == front.len() {
                assert(placement_text(s, n)[i] == '/');
            } else {
                assert(placement_text(s, n)[i] == last[i - front.len() - 1]);
            }
        }
    }
}

/// Castling rights are read back from their letters.
proof fn lemma_castling_reads_back(c: CastlingRights)
    ensures
        read_castling(castling_text(c)) == Ok::<CastlingRights, Seq<char>>(c),
        plain(castling_text(c)),
        castling_text(c).len() > 0,
{
    let e = Seq::<char>::empty();
    let a1 = flag(c.white_kingside, 'K');
    let a2 = a1 + flag(c.white_queenside, 'Q');
    let a3 = a2 + flag(c.black_kingside, 'k');
    let a4 = a3 + flag(c.black_queenside, 'q');
    assert(read_flags(e) == Ok::<CastlingRights, Seq<char>>(CastlingRights::nothing()));
    assert(seq!['K'].drop_last() =~= e);
    assert((a1 + seq!['Q']).drop_last() =~= a1);
    assert((a2 + seq!['k']).drop_last() =~= a2);
    assert((a3 + seq!['q']).drop_last() =~= a3);
    assert(a1 + e =~= a1);
    assert(a2 + e =~= a2);
    assert(a3 + e =~= a3);
    assert(a4 == castling_flags(c));
    assert(read_flags(a1) is Ok);
    assert(read_flags(a2) is Ok);
    assert(read_flags(a3) is Ok);
    assert(read_flags(a4) == Ok::<CastlingRights, Seq<char>>(c));
    assert(seq!['-'].drop_last() =~= e);
    assert(read_flags(seq!['-']) is Err);
    lemma_plain_join(a1, flag(c.white_queenside, 'Q'));
    lemma_plain_join(a2, flag(c.black_kingside, 'k'));
    lemma_plain_join(a3, flag(c.black_queenside, 'q'));
}

/// The fields of a FEN text.
spec fn fen_fields(p: Position) -> Seq<Seq<char>> {
    seq![
        placement_text(p.squares, 8),
        seq![side_char(p.side)],
        castling_text(p.castling),
        en_passant_text(p.en_passant),
        digits(p.halfmove as nat),
        digits(p.fullmove as nat),
    ]
}

proof fn lemma_join_fields(
    board: Seq<char>,
    side: char,
    castling: Seq<char>,
    ep: Seq<char>,
    half: Seq<char>,
    full: Seq<char>,
)
    ensures
        board + seq![' ', side, ' '] + castling + seq![' '] + ep + seq![' '] + half + seq![' ']
            + full == board + seq![' '] + (seq![side] + seq![' '] + (castling + seq![' '] + (ep
            + seq![' '] + (half + seq![' '] + full)))),
{
    let gap = seq![' '];
    let r5 = half + gap + full;
    let r4 = ep + gap + r5;
    let r3 = castling + gap + r4;
    let l1 = board + seq![' ', side, ' '];
    let l2 = l1 + castling + gap;
    let l3 = l2 + ep + gap;
    assert(l3 + half + gap + full =~= l3 + r5);
    assert(l3 + r5 =~= l2 + r4);
    assert(l2 + r4 =~= l1 + r3);
    assert(l1 + r3 =~= board + gap + (seq![side] + gap + r3));
}

proof fn lemma_fen_words(p: Position)
    requires
        p.valid(),
    ensures
        words(fen_text(p)) == fen_fields(p),
{
    let board = placement_text(p.squares, 8);
    let side = seq![side_char(p.side)];
    let castling = castling_text(p.castling);
    let ep = en_passant_text(p.en_passant);
    let half = digits(p.halfmove as nat);
    let full = digits(p.fullmove as nat);
    let gap = seq![' '];
    lemma_placement_solid(p.squares, 8);
    lemma_castling_reads_back(p.castling);
    lemma_digits_plain(p.halfmove as nat);
    lemma_digits_plain(p.fullmove as nat);
    let r5 = half + gap + full;
    let r4 = ep + gap + r5;
    let r3 = castling + gap + r4;
    let r2 = side + gap + r3;
    lemma_join_fields(board, side_char(p.side), castling, ep, half, full);
    lemma_words_single(full);
    lemma_words_cons(half, ' ', full);
    lemma_words_cons(ep, ' ', r5);
    lemma_words_cons(castling, ' ', r4);
    lemma_words_cons(side, ' ', r3);
    lemma_words_cons(board, ' ', r2);
    assert(words(fen_text(p)) =~= fen_fields(p));
}

/// Every position is read back from its FEN text, whole.
pub proof fn law_fen_reads_back(p: Position)
    requires
        p.valid(),
    ensures
        read_fen(fen_text(p)) == Ok::<Position, Seq<char>>(p),
{
    lemma_fen_words(p);
    lemma_castling_reads_back(p.castling);
    lemma_board_parts(p.squares);
    lemma_ranks_read_back(p.squares, 8);
    assert(upper(p.squares, 8) =~= p.squares);
    lemma_u32_reads_back(p.halfmove as nat);
    lemma_u32_reads_back(p.fullmove as nat);
    let side = seq![side_char(p.side)];
    assert(read_side(side) == Ok::<Color, Seq<char>>(p.side)) by {
        assert(side[0] == side_char(p.side));
        assert(seq!['w'][0] == 'w');
    }
    let fields = words(fen_text(p));
    assert(fields.len() == 6);
    assert(fields[1] == side);
    assert(read_ranks(parts(fields[0], '/'), 8) == Ok::<Seq<Option<Piece>>, Seq<char>>(p.squares));
    assert(read_counter(fields, 4, 0) == p.halfmove);
    assert(read_counter(fields, 5, 1) == p.fullmove);
    let ep = en_passant_text(p.en_passant);
    assert(read_en_passant(ep) == Ok::<Option<super::types::Square>, Seq<char>>(p.en_passant)) by {
        if let Some(sq) = p.en_passant {
            law_square_name_reads_back(sq);
            assert(square_name(sq)[0] != '-');
        }
    }
}

/// A position in FEN without its two counters.
pub open spec fn bare_fen_text(p: Position) -> Seq<char> {
    placement_text(p.squares, 8) + seq![' ', side_char(p.side), ' '] + castling_text(p.castling)
        + seq![' '] + en_passant_text(p.en_passant)
}

proof fn lemma_bare_fen_words(p: Position)
    requires
        p.valid(),
    ensures
        words(bare_fen_text(p)) == fen_fields(p).take(4),
{
    let board = placement_text(p.squares, 8);
    let side = seq![side_char(p.side)];
    let castling = castling_text(p.castling);
    let ep = en_passant_text(p.en_passant);
    let gap = seq![' '];
    lemma_placement_solid(p.squares, 8);
    lemma_castling_reads_back(p.castling);
    let r3 = castling + gap + ep;
    let r2 = side + gap + r3;
    assert(bare_fen_text(p) =~= board + gap + r2);
    lemma_words_single(ep);
    lemma_words_cons(castling, ' ', ep);
    lemma_words_cons(side, ' ', r3);
    lemma_words_cons(board, ' ', r2);
    assert(words(bare_fen_text(p)) =~= fen_fields(p).take(4));
}

/// A FEN text whose two counters are dropped reads as the same position, with
/// no half-move made and at its first move.
pub proof fn law_fen_without_counters(p: Position)
    requires
        p.valid(),
    ensures
        fen_text(p) == bare_fen_text(p) + seq![' '] + digits(p.halfmove as nat) + seq![' ']
            + digits(p.fullmove as nat),
        read_fen(bare_fen_text(p)) == Ok::<Position, Seq<char>>(
            Position { halfmove: 0, fullmove: 1, ..p },
        ),
{
    lemma_bare_fen_words(p);
    lemma_castling_reads_back(p.castling);
    lemma_board_parts(p.squares);
    lemma_ranks_read_back(p.squares, 8);
    assert(upper(p.squares, 8) =~= p.squares);
    let side = seq![side_char(p.side)];
    assert(read_side(side) == Ok::<Color, Seq<char>>(p.side)) by {
        assert(side[0] == side_char(p.side));
        assert(seq!['w'][0] == 'w');
    }
    let fields = words(bare_fen_text(p));
    assert(fields.len() == 4);
    assert(fields[0] == placement_text(p.squares, 8));
    assert(fields[1] == side);
    assert(fields[2] == castling_text(p.castling));
    let ep = en_passant_text(p.en_passant);
    assert(fields[3] == ep);
    assert(read_ranks(parts(fields[0], '/'), 8) == Ok::<Seq<Option<Piece>>, Seq<char>>(p.squares));
    assert(read_en_passant(ep) == Ok::<Option<super::types::Square>, Seq<char>>(p.en_passant)) by {
        if let Some(sq) = p.en_passant {
            law_square_name_reads_back(sq);
            assert(square_name(sq)[0] != '-');
        }
    }
}

/// The en passant square of a position, where a pawn can use it.
pub open spec fn useful_en_passant(p: Position) -> Option<Square> {
    match p.en_passant {
        Some(ep) => if en_passant_matters(p, ep) {
            Some(ep)
        } else {
            None
        },
        None => None,
    }
}

/// What a key tells of en passant.
spec fn key_end(ep: Option<Square>) -> Seq<char> {
    match ep {
        Some(sq) => square_name(sq),
        None => Seq::empty(),
    }
}

spec fn castling_letter(c: char) -> bool {
    c == 'K' || c == 'Q' || c == 'k' || c == 'q' || c == '-'
}

proof fn lemma_castling_letters(c: CastlingRights)
    ensures
        forall|i: int|
            0 <= i < castling_text(c).len() ==> castling_letter(#[trigger] castling_text(c)[i]),
{
    let a1 = flag(c.white_kingside, 'K');
    let a2 = a1 + flag(c.white_queenside, 'Q');
    let a3 = a2 + flag(c.black_kingside, 'k');
    let a4 = a3 + flag(c.black_queenside, 'q');
    assert(forall|i: int| 0 <= i < a1.len() ==> castling_letter(#[trigger] a1[i]));
    assert(forall|i: int| 0 <= i < a2.len() ==> castling_letter(#[trigger] a2[i]));
    assert(forall|i: int| 0 <= i < a3.len() ==> castling_letter(#[trigger] a3[i]));
    assert(forall|i: int| 0 <= i < a4.len() ==> castling_letter(#[trigger] a4[i]));
}

/// The end of a key tells castling and en passant apart.
proof fn lemma_key_ends(
    c: CastlingRights,
    x: Option<Square>,
    d: CastlingRights,
    y: Option<Square>,
)
    requires
        x matches Some(sq) ==> sq.valid(),
        y matches Some(sq) ==> sq.valid(),
        castling_text(c) + key_end(x) == castling_text(d) + key_end(y),
    ensures
        c == d,
        x == y,
{
    let (s, t) = (castling_text(c), castling_text(d));
    let (u, v) = (s + key_end(x), t + key_end(y));
    lemma_castling_letters(c);
    lemma_castling_letters(d);
    if s.len() < t.len() {
        assert(u[s.len() as int] == v[s.len() as int]);
        assert(v[s.len() as int] == t[s.len() as int]);
        assert(u[s.len() as int] == key_end(x)[0]);
        assert(!castling_letter(key_end(x)[0]));
    }
    if t.len() < s.len() {
        assert(u[t.len() as int] == v[t.len() as int]);
        assert(u[t.len() as int] == s[t.len() as int]);
        assert(v[t.len() as int] == key_end(y)[0]);
        assert(!castling_letter(key_end(y)[0]));
    }
    assert(u.take(s.len() as int) =~= s);
    assert(v.take(s.len() as int) =~= t);
    assert(u.skip(s.len() as int) =~= key_end(x));
    assert(v.skip(s.len() as int) =~= key_end(y));
    lemma_castling_reads_back(c);
    lemma_castling_reads_back(d);
    if let Some(sq) = x {
        law_square_name_reads_back(sq);
    }
    if let Some(sq) = y {
        law_square_name_reads_back(sq);
    }
}

proof fn lemma_key_chars(p: Option<Piece>, q: Option<Piece>)
    requires
        key_char(p) == key_char(q),
    ensures
        p == q,
{
    if let Some(piece) = p {
        law_piece_char_reads_back(piece);
    }
    if let Some(piece) = q {
        law_piece_char_reads_back(piece);
    }
}

/// What a key tells of the squares.
spec fn key_board(s: Seq<Option<Piece>>) -> Seq<char> {
    Seq::new(64, |k: int| key_char(s[(7 - k / 8) * 8 + k % 8]))
}

proof fn lemma_key_boards(s: Seq<Option<Piece>>, t: Seq<Option<Piece>>)
    requires
        s.len() == 64,
        t.len() == 64,
        key_board(s) == key_board(t),
    ensures
        s == t,
{
    assert forall|i: int| 0 <= i < 64 implies s[i] == t[i] by {
        let k = (7 - i / 8) * 8 + i % 8;
        assert((7 - k / 8) * 8 + k % 8 == i);
        assert(key_board(s)[k] == key_char(s[i]));
        assert(key_board(t)[k] == key_char(t[i]));
        lemma_key_chars(s[i], t[i]);
    }
    assert(s =~= t);
}

/// The parts of a key.
proof fn lemma_key_parts(p: Position)
    ensures
        position_key(p) == key_board(p.squares) + (seq![side_char(p.side)] + (castling_text(
            p.castling,
        ) + key_end(useful_en_passant(p)))),
{
    assert(position_key(p) =~= key_board(p.squares) + (seq![side_char(p.side)] + (castling_text(
        p.castling,
    ) + key_end(useful_en_passant(p)))));
}

proof fn lemma_keys_come_apart(
    m: Seq<char>,
    c: char,
    x: Seq<char>,
    n: Seq<char>,
    d: char,
    y: Seq<char>,
)
    requires
        m.len() == 64,
        n.len() == 64,
        m + (seq![c] + x) == n + (seq![d] + y),
    ensures
        m == n,
        c == d,
        x == y,
{
    let u = m + (seq![c] + x);
    let v = n + (seq![d] + y);
    assert(u.take(64) =~= m);
    assert(v.take(64) =~= n);
    assert(u[64] == c);
    assert(v[64] == d);
    assert(u.skip(65) =~= x);
    assert(v.skip(65) =~= y);
}

/// Two positions have one key exactly when they agree on all squares, on the
/// side to move, on castling and on en passant where a pawn can use it. How
/// long the game has gone on does not matter.
pub proof fn law_position_keys(a: Position, b: Position)
    requires
        a.valid(),
        b.valid(),
    ensures
        position_key(a) == position_key(b) <==> a.squares == b.squares && a.side == b.side
            && a.castling == b.castling && useful_en_passant(a) == useful_en_passant(b),
{
    lemma_key_parts(a);
    lemma_key_parts(b);
    if position_key(a) == position_key(b) {
        lemma_keys_come_apart(
            key_board(a.squares),
            side_char(a.side),
            castling_text(a.castling) + key_end(useful_en_passant(a)),
            key_board(b.squares),
            side_char(b.side),
            castling_text(b.castling) + key_end(useful_en_passant(b)),
        );
        lemma_key_ends(a.castling, useful_en_passant(a), b.castling, useful_en_passant(b));
        lemma_key_boards(a.squares, b.squares);
    }
}

proof fn lemma_keep_safe_exact(p: Position, moves: Seq<Move>, mv: Move)
    ensures
        keep_safe(p, moves).contains(mv) <==> moves.contains(mv) && keeps_king_safe(p, mv),
    decreases moves.len(),
{
    if moves.len() > 0 {
        let front = moves.drop_last();
        lemma_keep_safe_exact(p, front, mv);
        let kept = keep_safe(p, front);
        if keeps_king_safe(p, moves.last()) {
            let longer = kept.push(moves.last());
            if longer.contains(mv) {
                let i = choose|i: int| 0 <= i < longer.len() && longer[i] == mv;
                if i < kept.len() {
                    assert(kept[i] == mv);
                    assert(kept.contains(mv));
                } else {
                    assert(moves[moves.len() - 1] == mv);
                }
            }
            if kept.contains(mv) {
                let i = choose|i: int| 0 <= i < kept.len() && kept[i] == mv;
                assert(longer[i] == mv);
            }
            if mv == moves.last() {
                assert(longer[kept.len() as int] == mv);
            }
        }
        if front.contains(mv) {
            let i = choose|i: int| 0 <= i < front.len() && front[i] == mv;
            assert(moves[i] == mv);
        }
        if moves.contains(mv) {
            let i = choose|i: int| 0 <= i < moves.len() && moves[i] == mv;
            if i < front.len() {
                assert(front[i] == mv);
            } else {
                assert(mv == moves.last());
            }
        }
    }
}

/// A move is legal exactly when a piece can make it and it leaves the mover's
/// own king out of check.
pub proof fn law_legal_moves(p: Position, mv: Move)
    ensures
        legal_moves(p).contains(mv) <==> pseudo_moves(p, 64).contains(mv) && keeps_king_safe(p, mv),
{
    lemma_keep_safe_exact(p, pseudo_moves(p, 64), mv);
}

} // verus!
