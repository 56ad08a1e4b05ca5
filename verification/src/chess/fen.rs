//! Forsyth-Edwards notation: a position as one line of text.

use super::board::{empty_position, Board};
use super::rules::{
    en_passant_text, fen_text, placement_text, rank_text, row_text, side_char, Position,
};
use super::types::{
    castling_text, on_board, piece_named, square_named, CastlingRights, Color, Piece, Square,
};
use crate::text::{
    chars_of, digit_of, digit_value, digits, parse_u32, parts, push_chars, push_decimal,
    split_parts, split_words, u32_value, views, with_number, words,
};
use vstd::prelude::*;
use vstd::string::*;

verus! {

pub const STARTING_FEN: &'static str = "rnbqkbnr/pppppppp/8/8/8/8/PPPPPPPP/RNBQKBNR w KQkq - 0 1";

/// Why a text is not a position.
#[derive(Debug, Clone, PartialEq, Eq)]
pub struct FenError(pub String);

impl FenError {
    pub fn message(&self) -> (r: String)
        ensures
            r@ == "invalid FEN: "@ + self.0@,
    {
        let mut out = "invalid FEN: ".to_string();
        out.push_str(self.0.as_str());
        out
    }
}

/// A rank being read: the squares, and the file that comes next.
pub open spec fn read_row(s: Seq<Option<Piece>>, row: Seq<char>, rank: int) -> Result<
    (Seq<Option<Piece>>, int),
    Seq<char>,
>
    decreases row.len(),
{
    if row.len() == 0 {
        Ok((s, 0))
    } else {
        match read_row(s, row.drop_last(), rank) {
            Err(e) => Err(e),
            Ok((squares, file)) => {
                let c = row.last();
                match digit_value(c) {
                    Some(skip) => if skip == 0 || skip > 8 {
                        Err("bad empty-square run '"@ + seq![c] + "'"@)
                    } else {
                        Ok((squares, file + skip))
                    },
                    None => match piece_named(c) {
                        None => Err("bad piece '"@ + seq![c] + "'"@),
                        Some(piece) => if !on_board(file, rank) {
                            Err("rank "@ + digits((rank + 1) as nat) + " overflows"@)
                        } else {
                            Ok((squares.update(rank * 8 + file, Some(piece)), file + 1))
                        },
                    },
                }
            },
        }
    }
}

/// The squares once a rank is read; it must name all eight files.
pub open spec fn read_rank(s: Seq<Option<Piece>>, row: Seq<char>, rank: int) -> Result<
    Seq<Option<Piece>>,
    Seq<char>,
> {
    match read_row(s, row, rank) {
        Err(e) => Err(e),
        Ok((squares, file)) => if file != 8 {
            Err(
                "rank "@ + digits((rank + 1) as nat) + " describes "@ + digits(file as nat)
                    + " files, expected 8"@,
            )
        } else {
            Ok(squares)
        },
    }
}

/// The squares once the first `n` ranks, from the eighth down, are read.
pub open spec fn read_ranks(rows: Seq<Seq<char>>, n: nat) -> Result<Seq<Option<Piece>>, Seq<char>>
    decreases n,
{
    if n == 0 {
        Ok(empty_position().squares)
    } else {
        match read_ranks(rows, (n - 1) as nat) {
            Err(e) => Err(e),
            Ok(squares) => read_rank(squares, rows[n - 1], 8 - n),
        }
    }
}

pub open spec fn read_side(s: Seq<char>) -> Result<Color, Seq<char>> {
    if s == seq!['w'] {
        Ok(Color::White)
    } else if s == seq!['b'] {
        Ok(Color::Black)
    } else {
        Err("bad side to move '"@ + s + "'"@)
    }
}

/// The rights that a run of letters grants.
pub open spec fn read_flags(s: Seq<char>) -> Result<CastlingRights, Seq<char>>
    decreases s.len(),
{
    if s.len() == 0 {
        Ok(CastlingRights::nothing())
    } else {
        match read_flags(s.drop_last()) {
            Err(e) => Err(e),
            Ok(rights) => {
                let c = s.last();
                if c == 'K' {
                    Ok(CastlingRights { white_kingside: true, ..rights })
                } else if c == 'Q' {
                    Ok(CastlingRights { white_queenside: true, ..rights })
                } else if c == 'k' {
                    Ok(CastlingRights { black_kingside: true, ..rights })
                } else if c == 'q' {
                    Ok(CastlingRights { black_queenside: true, ..rights })
                } else {
                    Err("bad castling flag '"@ + seq![c] + "'"@)
                }
            },
        }
    }
}

pub open spec fn read_castling(s: Seq<char>) -> Result<CastlingRights, Seq<char>> {
    if s == seq!['-'] {
        Ok(CastlingRights::nothing())
    } else {
        read_flags(s)
    }
}

pub open spec fn read_en_passant(s: Seq<char>) -> Result<Option<Square>, Seq<char>> {
    if s == seq!['-'] {
        Ok(None)
    } else {
        match square_named(s) {
            Some(sq) => Ok(Some(sq)),
            None => Err("bad en passant square '"@ + s + "'"@),
        }
    }
}

/// A counter at the end of the line. What is missing or unreadable counts as
/// `or`.
pub open spec fn read_counter(fields: Seq<Seq<char>>, i: int, or: u32) -> u32 {
    if i < fields.len() {
        match u32_value(fields[i]) {
            Some(n) => n as u32,
            None => or,
        }
    } else {
        or
    }
}

/// The position that a text describes, or what is wrong with it.
pub open spec fn read_fen(s: Seq<char>) -> Result<Position, Seq<char>> {
    let fields = words(s);
    if fields.len() < 4 {
        Err("expected at least 4 fields, got "@ + digits(fields.len()))
    } else {
        let rows = parts(fields[0], '/');
        if rows.len() != 8 {
            Err("expected 8 ranks, got "@ + digits(rows.len()))
        } else {
            match read_ranks(rows, 8) {
                Err(e) => Err(e),
                Ok(squares) => match read_side(fields[1]) {
                    Err(e) => Err(e),
                    Ok(side) => match read_castling(fields[2]) {
                        Err(e) => Err(e),
                        Ok(castling) => match read_en_passant(fields[3]) {
                            Err(e) => Err(e),
                            Ok(en_passant) => Ok(
                                Position {
                                    squares,
                                    side,
                                    castling,
                                    en_passant,
                                    halfmove: read_counter(fields, 4, 0),
                                    fullmove: read_counter(fields, 5, 1),
                                },
                            ),
                        },
                    },
                },
            }
        }
    }
}

/// `before`, one character and `after` as one text.
fn quote_char(before: &str, c: char, after: &str) -> (r: String)
    ensures
        r@ == before@ + seq![c] + after@,
{
    let mut out = before.to_string();
    out.push(c);
    out.push_str(after);
    assert(out@ =~= before@ + seq![c] + after@);
    out
}

/// `before`, some characters and `after` as one text.
fn quote_chars(before: &str, s: &Vec<char>, after: &str) -> (r: String)
    ensures
        r@ == before@ + s@ + after@,
{
    let mut out = before.to_string();
    push_chars(&mut out, s);
    out.push_str(after);
    out
}

fn parse_rank(board: &mut Board, row: &Vec<char>, rank: i8) -> (r: Result<(), FenError>)
    requires
        0 <= rank < 8,
    ensures
        match r {
            Ok(()) => read_rank(old(board)@.squares, row@, rank as int) == Ok::<
                Seq<Option<Piece>>,
                Seq<char>,
            >(final(board)@.squares) && final(board)@ == (Position {
                squares: final(board)@.squares,
                ..old(board)@
            }),
            Err(e) => read_rank(old(board)@.squares, row@, rank as int) == Err::<
                Seq<Option<Piece>>,
                Seq<char>,
            >(e.0@),
        },
{
    let ghost start = board@;
    let mut file: u128 = 0;
    let mut i: usize = 0;
    while i < row.len()
        invariant
            0 <= rank < 8,
            i <= row.len(),
            file <= 8 * i,
            board@ == (Position { squares: board@.squares, ..start }),
            read_row(start.squares, row@.take(i as int), rank as int) == Ok::<
                (Seq<Option<Piece>>, int),
                Seq<char>,
            >((board@.squares, file as int)),
            start == old(board)@,
        decreases row.len() - i,
    {
        let c = row[i];
        let ghost next = row@.take(i + 1);
        assert(next.drop_last() =~= row@.take(i as int));
        assert(next.last() == c);
        proof {
            lemma_row_fault_stays(start.squares, row@, rank as int, i + 1);
        }
        match digit_of(c) {
            Some(skip) => {
                if skip == 0 || skip > 8 {
                    return Err(FenError(quote_char("bad empty-square run '", c, "'")));
                }
                file = file + skip as u128;
            },
            None => {
                match Piece::from_fen_char(c) {
                    None => {
                        return Err(FenError(quote_char("bad piece '", c, "'")));
                    },
                    Some(piece) => {
                        if file >= 8 {
                            return Err(
                                FenError(with_number("rank ", (rank + 1) as u128, " overflows")),
                            );
                        }
                        board.set_piece(Square(rank as u8 * 8 + file as u8), Some(piece));
                        file = file + 1;
                    },
                }
            },
        }
        i = i + 1;
    }
    assert(row@.take(row@.len() as int) =~= row@);
    if file != 8 {
        let mut text = with_number("rank ", (rank + 1) as u128, " describes ");
        push_decimal(&mut text, file);
        text.push_str(" files, expected 8");
        return Err(FenError(text));
    }
    Ok(())
}

/// What is wrong with the front of a rank is what is wrong with the rank.
proof fn lemma_row_fault_stays(s: Seq<Option<Piece>>, row: Seq<char>, rank: int, n: int)
    requires
        0 <= n <= row.len(),
    ensures
        forall|e: Seq<char>|
            read_row(s, row.take(n), rank) == Err::<(Seq<Option<Piece>>, int), Seq<char>>(e)
                ==> read_row(s, row, rank) == Err::<(Seq<Option<Piece>>, int), Seq<char>>(e),
    decreases row.len(),
{
    if n == row.len() {
        assert(row.take(n) =~= row);
    } else {
        lemma_row_fault_stays(s, row.drop_last(), rank, n);
        assert(row.drop_last().take(n) =~= row.take(n));
    }
}

/// What is wrong with the upper ranks is what is wrong with the board.
proof fn lemma_rank_fault_stays(rows: Seq<Seq<char>>, n: nat, m: nat)
    requires
        n <= m,
    ensures
        forall|e: Seq<char>|
            read_ranks(rows, n) == Err::<Seq<Option<Piece>>, Seq<char>>(e) ==> read_ranks(rows, m)
                == Err::<Seq<Option<Piece>>, Seq<char>>(e),
    decreases m,
{
    if n < m {
        lemma_rank_fault_stays(rows, n, (m - 1) as nat);
    }
}

fn parse_side(s: &Vec<char>) -> (r: Result<Color, FenError>)
    ensures
        match r {
            Ok(side) => read_side(s@) == Ok::<Color, Seq<char>>(side),
            Err(e) => read_side(s@) == Err::<Color, Seq<char>>(e.0@),
        },
{
    if s.len() == 1 && s[0] == 'w' {
        assert(s@ =~= seq!['w']);
        return Ok(Color::White);
    }
    if s.len() == 1 && s[0] == 'b' {
        assert(s@ =~= seq!['b']);
        return Ok(Color::Black);
    }
    Err(FenError(quote_chars("bad side to move '", s, "'")))
}

fn is_dash(s: &Vec<char>) -> (r: bool)
    ensures
        r == (s@ == seq!['-']),
{
    if s.len() == 1 && s[0] == '-' {
        assert(s@ =~= seq!['-']);
        return true;
    }
    false
}

/// What is wrong with the front of the letters is what is wrong with them.
proof fn lemma_flag_fault_stays(s: Seq<char>, n: int)
    requires
        0 <= n <= s.len(),
    ensures
        forall|e: Seq<char>|
            read_flags(s.take(n)) == Err::<CastlingRights, Seq<char>>(e) ==> read_flags(s)
                == Err::<CastlingRights, Seq<char>>(e),
    decreases s.len(),
{
    if n == s.len() {
        assert(s.take(n) =~= s);
    } else {
        lemma_flag_fault_stays(s.drop_last(), n);
        assert(s.drop_last().take(n) =~= s.take(n));
    }
}

fn parse_castling(s: &Vec<char>) -> (r: Result<CastlingRights, FenError>)
    ensures
        match r {
            Ok(rights) => read_castling(s@) == Ok::<CastlingRights, Seq<char>>(rights),
            Err(e) => read_castling(s@) == Err::<CastlingRights, Seq<char>>(e.0@),
        },
{
    let mut rights = CastlingRights::none();
    if is_dash(s) {
        return Ok(rights);
    }
    let mut i: usize = 0;
    while i < s.len()
        invariant
            i <= s.len(),
            s@ != seq!['-'],
            read_flags(s@.take(i as int)) == Ok::<CastlingRights, Seq<char>>(rights),
        decreases s.len() - i,
    {
        let ghost next = s@.take(i + 1);
        assert(next.drop_last() =~= s@.take(i as int));
        assert(next.last() == s@[i as int]);
        match s[i] {
            'K' => {
                rights.white_kingside = true;
            },
            'Q' => {
                rights.white_queenside = true;
            },
            'k' => {
                rights.black_kingside = true;
            },
            'q' => {
                rights.black_queenside = true;
            },
            other => {
                proof {
                    lemma_flag_fault_stays(s@, i + 1);
                }
                return Err(FenError(quote_char("bad castling flag '", other, "'")));
            },
        }
        i = i + 1;
    }
    assert(s@.take(s@.len() as int) =~= s@);
    Ok(rights)
}

fn parse_en_passant(s: &Vec<char>) -> (r: Result<Option<Square>, FenError>)
    ensures
        match r {
            Ok(ep) => read_en_passant(s@) == Ok::<Option<Square>, Seq<char>>(ep) && (ep matches Some(
                sq,
            ) ==> sq.valid()),
            Err(e) => read_en_passant(s@) == Err::<Option<Square>, Seq<char>>(e.0@),
        },
{
    if is_dash(s) {
        return Ok(None);
    }
    assert(s@.subrange(0, s@.len() as int) =~= s@);
    match Square::from_chars(s, 0, s.len()) {
        Some(sq) => Ok(Some(sq)),
        None => Err(FenError(quote_chars("bad en passant square '", s, "'"))),
    }
}

fn parse_counter(fields: &Vec<Vec<char>>, i: usize, or: u32) -> (r: u32)
    ensures
        r == read_counter(views(fields@), i as int, or),
{
    if i < fields.len() {
        match parse_u32(&fields[i]) {
            Some(n) => n,
            None => or,
        }
    } else {
        or
    }
}

impl Board {
    pub fn to_fen(&self) -> (r: String)
        requires
            self.valid(),
        ensures
            r@ == fen_text(self@),
    {
        let mut fen = self.placement();
        let ghost p = self@;
        let ghost t1 = placement_text(p.squares, 8) + seq![' ', side_char(p.side), ' '];
        fen.push(' ');
        fen.push(self.side_letter());
        fen.push(' ');
        assert(fen@ =~= t1);
        let rights = self.castling.to_fen();
        fen.push_str(rights.as_str());
        let ghost t2 = t1 + castling_text(p.castling) + seq![' '];
        fen.push(' ');
        assert(fen@ =~= t2);
        match self.en_passant {
            Some(sq) => sq.push_name(&mut fen),
            None => fen.push('-'),
        }
        let ghost t3 = t2 + en_passant_text(p.en_passant) + seq![' '];
        fen.push(' ');
        assert(fen@ =~= t3);
        push_decimal(&mut fen, self.halfmove_clock as u128);
        let ghost t4 = t3 + digits(p.halfmove as nat) + seq![' '];
        fen.push(' ');
        assert(fen@ =~= t4);
        push_decimal(&mut fen, self.fullmove_number as u128);
        fen
    }

    /// The ranks from the eighth down, with slashes between.
    fn placement(&self) -> (r: String)
        ensures
            r@ == placement_text(self@.squares, 8),
    {
        let mut fen = String::new();
        let mut done: u8 = 0;
        while done < 8
            invariant
                done <= 8,
                fen@ == placement_text(self@.squares, done as nat),
            decreases 8 - done,
        {
            let ghost before = fen@;
            if done > 0 {
                fen.push('/');
                assert(fen@ =~= before + seq!['/']);
            }
            self.push_rank(&mut fen, 7 - done);
            assert(fen@ =~= placement_text(self@.squares, (done + 1) as nat));
            done = done + 1;
        }
        fen
    }

    /// Append one rank: letters for pieces, digits for runs of empty squares.
    fn push_rank(&self, fen: &mut String, rank: u8)
        requires
            rank < 8,
        ensures
            final(fen)@ == old(fen)@ + rank_text(self@.squares, rank as int),
    {
        let ghost start = fen@;
        let ghost s = self@.squares;
        let mut run: u128 = 0;
        let mut file: u8 = 0;
        assert(start + row_text(s, rank as int, 0).0 =~= start);
        while file < 8
            invariant
                rank < 8,
                file <= 8,
                run <= file,
                s == self@.squares,
                fen@ == start + row_text(s, rank as int, file as nat).0,
                run == row_text(s, rank as int, file as nat).1,
            decreases 8 - file,
        {
            match self.piece_at(Square(rank * 8 + file)) {
                Some(p) => {
                    if run > 0 {
                        push_decimal(fen, run);
                        run = 0;
                    }
                    fen.push(p.fen_char());
                },
                None => {
                    run = run + 1;
                },
            }
            file = file + 1;
            assert(fen@ =~= start + row_text(s, rank as int, file as nat).0);
        }
        if run > 0 {
            push_decimal(fen, run);
        }
        assert(fen@ =~= start + rank_text(s, rank as int));
    }

    pub fn from_fen(fen: &str) -> (r: Result<Board, FenError>)
        ensures
            match r {
                Ok(board) => read_fen(fen@) == Ok::<Position, Seq<char>>(board@) && board.valid(),
                Err(e) => read_fen(fen@) == Err::<Position, Seq<char>>(e.0@),
            },
    {
        let cs = chars_of(fen);
        let fields = split_words(&cs);
        let ghost texts = views(fields@);
        if fields.len() < 4 {
            let mut text = "expected at least 4 fields, got ".to_string();
            push_decimal(&mut text, fields.len() as u128);
            return Err(FenError(text));
        }
        let rows = split_parts(&fields[0], '/');
        let ghost row_texts = views(rows@);
        if rows.len() != 8 {
            let mut text = "expected 8 ranks, got ".to_string();
            push_decimal(&mut text, rows.len() as u128);
            return Err(FenError(text));
        }
        let mut board = Board::empty();
        let mut i: usize = 0;
        while i < 8
            invariant
                i <= 8,
                rows.len() == 8,
                row_texts == views(rows@),
                board@ == (Position { squares: board@.squares, ..empty_position() }),
                read_ranks(row_texts, i as nat) == Ok::<Seq<Option<Piece>>, Seq<char>>(
                    board@.squares,
                ),
                texts == words(fen@),
                texts.len() >= 4,
                row_texts == parts(texts[0], '/'),
            decreases 8 - i,
        {
            match parse_rank(&mut board, &rows[i], 7 - i as i8) {
                Ok(()) => {},
                Err(e) => {
                    proof {
                        lemma_rank_fault_stays(row_texts, (i + 1) as nat, 8);
                    }
                    return Err(e);
                },
            }
            i = i + 1;
        }
        board.side_to_move =
        match parse_side(&fields[1]) {
            Ok(side) => side,
            Err(e) => return Err(e),
        };
        board.castling =
        match parse_castling(&fields[2]) {
            Ok(rights) => rights,
            Err(e) => return Err(e),
        };
        board.en_passant =
        match parse_en_passant(&fields[3]) {
            Ok(ep) => ep,
            Err(e) => return Err(e),
        };
        board.halfmove_clock = parse_counter(&fields, 4, 0);
        board.fullmove_number = parse_counter(&fields, 5, 1);
        Ok(board)
    }
}

} // verus!
