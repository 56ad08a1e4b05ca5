//! The pieces, squares and moves of chess.

use crate::text::{chars_of, digits, with_number};
use vstd::prelude::*;
use vstd::string::*;

verus! {

#[derive(Debug, Clone, Copy, PartialEq, Eq, Hash, Structural)]
pub enum Color {
    White,
    Black,
}

impl Color {
    pub open spec fn other(self) -> Color {
        match self {
            Color::White => Color::Black,
            Color::Black => Color::White,
        }
    }

    /// The way this side's pawns go, in ranks.
    pub open spec fn forward(self) -> int {
        match self {
            Color::White => 1,
            Color::Black => -1,
        }
    }

    /// The rank this side's pawns start on.
    pub open spec fn pawn_home(self) -> int {
        match self {
            Color::White => 1,
            Color::Black => 6,
        }
    }

    /// The rank on which this side's pawns promote.
    pub open spec fn last_rank(self) -> int {
        match self {
            Color::White => 7,
            Color::Black => 0,
        }
    }

    /// The rank this side's king starts on.
    pub open spec fn home_rank(self) -> int {
        match self {
            Color::White => 0,
            Color::Black => 7,
        }
    }

    pub fn opposite(self) -> (r: Color)
        ensures
            r == self.other(),
    {
        match self {
            Color::White => Color::Black,
            Color::Black => Color::White,
        }
    }

    pub fn pawn_start_rank(self) -> (r: u8)
        ensures
            r == self.pawn_home(),
    {
        match self {
            Color::White => 1,
            Color::Black => 6,
        }
    }

    pub fn promotion_rank(self) -> (r: u8)
        ensures
            r == self.last_rank(),
    {
        match self {
            Color::White => 7,
            Color::Black => 0,
        }
    }

    pub fn pawn_direction(self) -> (r: i8)
        ensures
            r == self.forward(),
    {
        match self {
            Color::White => 1,
            Color::Black => -1,
        }
    }

    pub fn back_rank(self) -> (r: u8)
        ensures
            r == self.home_rank(),
    {
        match self {
            Color::White => 0,
            Color::Black => 7,
        }
    }
}

#[derive(Debug, Clone, Copy, PartialEq, Eq, Hash, PartialOrd, Ord, Structural)]
pub enum PieceKind {
    Pawn,
    Knight,
    Bishop,
    Rook,
    Queen,
    King,
}

/// The lower-case letter of a kind of piece.
pub open spec fn kind_letter(kind: PieceKind) -> char {
    match kind {
        PieceKind::Pawn => 'p',
        PieceKind::Knight => 'n',
        PieceKind::Bishop => 'b',
        PieceKind::Rook => 'r',
        PieceKind::Queen => 'q',
        PieceKind::King => 'k',
    }
}

/// The upper-case letter of a kind of piece.
pub open spec fn kind_capital(kind: PieceKind) -> char {
    match kind {
        PieceKind::Pawn => 'P',
        PieceKind::Knight => 'N',
        PieceKind::Bishop => 'B',
        PieceKind::Rook => 'R',
        PieceKind::Queen => 'Q',
        PieceKind::King => 'K',
    }
}

/// The kind of piece that a letter of either case names.
pub open spec fn kind_named(c: char) -> Option<PieceKind> {
    if c == 'p' || c == 'P' {
        Some(PieceKind::Pawn)
    } else if c == 'n' || c == 'N' {
        Some(PieceKind::Knight)
    } else if c == 'b' || c == 'B' {
        Some(PieceKind::Bishop)
    } else if c == 'r' || c == 'R' {
        Some(PieceKind::Rook)
    } else if c == 'q' || c == 'Q' {
        Some(PieceKind::Queen)
    } else if c == 'k' || c == 'K' {
        Some(PieceKind::King)
    } else {
        None
    }
}

/// The kinds a pawn can become.
pub open spec fn promotable(kind: PieceKind) -> bool {
    kind == PieceKind::Knight || kind == PieceKind::Bishop || kind == PieceKind::Rook || kind
        == PieceKind::Queen
}

impl PieceKind {
    pub fn letter(self) -> (r: char)
        ensures
            r == kind_letter(self),
    {
        match self {
            PieceKind::Pawn => 'p',
            PieceKind::Knight => 'n',
            PieceKind::Bishop => 'b',
            PieceKind::Rook => 'r',
            PieceKind::Queen => 'q',
            PieceKind::King => 'k',
        }
    }

    pub fn capital(self) -> (r: char)
        ensures
            r == kind_capital(self),
    {
        match self {
            PieceKind::Pawn => 'P',
            PieceKind::Knight => 'N',
            PieceKind::Bishop => 'B',
            PieceKind::Rook => 'R',
            PieceKind::Queen => 'Q',
            PieceKind::King => 'K',
        }
    }

    pub fn from_letter(c: char) -> (r: Option<PieceKind>)
        ensures
            r == kind_named(c),
    {
        match c {
            'p' | 'P' => Some(PieceKind::Pawn),
            'n' | 'N' => Some(PieceKind::Knight),
            'b' | 'B' => Some(PieceKind::Bishop),
            'r' | 'R' => Some(PieceKind::Rook),
            'q' | 'Q' => Some(PieceKind::Queen),
            'k' | 'K' => Some(PieceKind::King),
            _ => None,
        }
    }

    /// The usual worth of a piece in pawns; a king is never counted.
    pub fn material_value(self) -> (r: u32)
        ensures
            r == (match self {
                PieceKind::Pawn => 1u32,
                PieceKind::Knight => 3u32,
                PieceKind::Bishop => 3u32,
                PieceKind::Rook => 5u32,
                PieceKind::Queen => 9u32,
                PieceKind::King => 0u32,
            }),
    {
        match self {
            PieceKind::Pawn => 1,
            PieceKind::Knight | PieceKind::Bishop => 3,
            PieceKind::Rook => 5,
            PieceKind::Queen => 9,
            PieceKind::King => 0,
        }
    }

    /// Whether a pawn can become this.
    pub fn is_promotable(self) -> (r: bool)
        ensures
            r == promotable(self),
    {
        matches!(self, PieceKind::Knight | PieceKind::Bishop | PieceKind::Rook | PieceKind::Queen)
    }
}

#[derive(Debug, Clone, Copy, PartialEq, Eq, Hash, Structural)]
pub struct Piece {
    pub color: Color,
    pub kind: PieceKind,
}

/// The character that stands for a piece in FEN: a capital for White.
pub open spec fn piece_char(p: Piece) -> char {
    match p.color {
        Color::White => kind_capital(p.kind),
        Color::Black => kind_letter(p.kind),
    }
}

/// The piece that a FEN character stands for.
pub open spec fn piece_named(c: char) -> Option<Piece> {
    match kind_named(c) {
        Some(kind) => Some(
            Piece {
                color: if 'A' <= c && c <= 'Z' {
                    Color::White
                } else {
                    Color::Black
                },
                kind,
            },
        ),
        None => None,
    }
}

impl Piece {
    pub fn new(color: Color, kind: PieceKind) -> (r: Piece)
        ensures
            r == (Piece { color, kind }),
    {
        Piece { color, kind }
    }

    pub fn fen_char(self) -> (r: char)
        ensures
            r == piece_char(self),
    {
        match self.color {
            Color::White => self.kind.capital(),
            Color::Black => self.kind.letter(),
        }
    }

    pub fn from_fen_char(c: char) -> (r: Option<Piece>)
        ensures
            r == piece_named(c),
    {
        match PieceKind::from_letter(c) {
            Some(kind) => {
                let color = if 'A' <= c && c <= 'Z' {
                    Color::White
                } else {
                    Color::Black
                };
                Some(Piece { color, kind })
            },
            None => None,
        }
    }
}

/// Every piece is read back from the character that writes it.
pub proof fn law_piece_char_reads_back(p: Piece)
    ensures
        piece_named(piece_char(p)) == Some(p),
{
}

/// A square, numbered from a1 = 0 along the ranks to h8 = 63.
#[derive(Debug, Clone, Copy, PartialEq, Eq, Hash, PartialOrd, Ord, Structural)]
pub struct Square(pub u8);

pub const BOARD_SQUARES: u8 = 64;

pub open spec fn on_board(file: int, rank: int) -> bool {
    0 <= file < 8 && 0 <= rank < 8
}

/// The square on a file and a rank, both counted from zero.
pub open spec fn square_at(file: int, rank: int) -> Option<Square> {
    if on_board(file, rank) {
        Some(Square((rank * 8 + file) as u8))
    } else {
        None
    }
}

pub open spec fn file_char(file: int) -> char {
    if file == 0 {
        'a'
    } else if file == 1 {
        'b'
    } else if file == 2 {
        'c'
    } else if file == 3 {
        'd'
    } else if file == 4 {
        'e'
    } else if file == 5 {
        'f'
    } else if file == 6 {
        'g'
    } else {
        'h'
    }
}

pub open spec fn rank_char(rank: int) -> char {
    if rank == 0 {
        '1'
    } else if rank == 1 {
        '2'
    } else if rank == 2 {
        '3'
    } else if rank == 3 {
        '4'
    } else if rank == 4 {
        '5'
    } else if rank == 5 {
        '6'
    } else if rank == 6 {
        '7'
    } else {
        '8'
    }
}

/// The file that a letter of either case names.
pub open spec fn file_named(c: char) -> int {
    if 'a' <= c && c <= 'h' {
        c as int - 'a' as int
    } else if 'A' <= c && c <= 'H' {
        c as int - 'A' as int
    } else {
        -1
    }
}

pub open spec fn rank_named(c: char) -> int {
    if '1' <= c && c <= '8' {
        c as int - '1' as int
    } else {
        -1
    }
}

/// The square that a text names: a file letter, then a rank digit.
pub open spec fn square_named(s: Seq<char>) -> Option<Square> {
    if s.len() == 2 {
        square_at(file_named(s[0]), rank_named(s[1]))
    } else {
        None
    }
}

pub open spec fn square_name(sq: Square) -> Seq<char> {
    seq![file_char(sq.on_file()), rank_char(sq.on_rank())]
}

impl Square {
    pub open spec fn on_file(self) -> int {
        self.0 as int % 8
    }

    pub open spec fn on_rank(self) -> int {
        self.0 as int / 8
    }

    /// Whether this numbers a square of the board.
    pub open spec fn valid(self) -> bool {
        self.0 < BOARD_SQUARES
    }

    /// A square by its number, from `a1` by files and then by ranks.
    pub fn from_index(index: u8) -> (r: Result<Square, String>)
        ensures
            match r {
                Ok(sq) => index < BOARD_SQUARES && sq == Square(index),
                Err(e) => index >= BOARD_SQUARES && e@ == "square "@ + digits(index as nat)
                    + " is off the board (must be 0..64)"@,
            },
    {
        if index >= BOARD_SQUARES {
            return Err(
                with_number("square ", index as u128, " is off the board (must be 0..64)"),
            );
        }
        Ok(Square(index))
    }

    pub fn from_coords(file: i8, rank: i8) -> (r: Option<Square>)
        ensures
            r == square_at(file as int, rank as int),
            r matches Some(sq) ==> sq.valid() && sq.on_file() == file && sq.on_rank() == rank,
    {
        if 0 <= file && file < 8 && 0 <= rank && rank < 8 {
            Some(Square((rank * 8 + file) as u8))
        } else {
            None
        }
    }

    pub fn file(self) -> (r: u8)
        ensures
            r == self.on_file(),
            r < 8,
    {
        self.0 % 8
    }

    pub fn rank(self) -> (r: u8)
        ensures
            r == self.on_rank(),
            self.valid() ==> r < 8,
    {
        self.0 / 8
    }

    pub fn from_algebraic(s: &str) -> (r: Option<Square>)
        ensures
            r == square_named(s@),
            r matches Some(sq) ==> sq.valid(),
    {
        let cs = chars_of(s);
        Square::from_chars(&cs, 0, cs.len())
    }

    /// The square that the characters from `from` up to `to` name.
    pub fn from_chars(cs: &Vec<char>, from: usize, to: usize) -> (r: Option<Square>)
        requires
            from <= to <= cs.len(),
        ensures
            r == square_named(cs@.subrange(from as int, to as int)),
            r matches Some(sq) ==> sq.valid(),
    {
        if to - from != 2 {
            return None;
        }
        let f = cs[from];
        let k = cs[from + 1];
        let file: i8 = if 'a' <= f && f <= 'h' {
            (f as u32 - 'a' as u32) as i8
        } else if 'A' <= f && f <= 'H' {
            (f as u32 - 'A' as u32) as i8
        } else {
            -1
        };
        let rank: i8 = if '1' <= k && k <= '8' {
            (k as u32 - '1' as u32) as i8
        } else {
            -1
        };
        Square::from_coords(file, rank)
    }

    /// Whether this is a light square.
    pub fn is_light(self) -> (r: bool)
        ensures
            r == ((self.on_file() + self.on_rank()) % 2 == 1),
    {
        (self.file() + self.rank()) % 2 == 1
    }

    /// Append the name of the square, such as `e4`.
    pub fn push_name(self, out: &mut String)
        requires
            self.valid(),
        ensures
            final(out)@ == old(out)@ + square_name(self),
    {
        out.push(file_letter(self.file()));
        out.push(rank_digit(self.rank()));
    }

    /// The name of the square, such as `e4`.
    pub fn name(self) -> (r: String)
        requires
            self.valid(),
        ensures
            r@ == square_name(self),
    {
        let mut out = String::new();
        self.push_name(&mut out);
        out
    }
}

pub fn file_letter(file: u8) -> (r: char)
    requires
        file < 8,
    ensures
        r == file_char(file as int),
{
    match file {
        0 => 'a',
        1 => 'b',
        2 => 'c',
        3 => 'd',
        4 => 'e',
        5 => 'f',
        6 => 'g',
        _ => 'h',
    }
}

pub fn rank_digit(rank: u8) -> (r: char)
    requires
        rank < 8,
    ensures
        r == rank_char(rank as int),
{
    match rank {
        0 => '1',
        1 => '2',
        2 => '3',
        3 => '4',
        4 => '5',
        5 => '6',
        6 => '7',
        _ => '8',
    }
}

/// Every square of the board is read back from its name.
pub proof fn law_square_name_reads_back(sq: Square)
    requires
        sq.valid(),
    ensures
        square_named(square_name(sq)) == Some(sq),
{
}

#[derive(Debug, Clone, Copy, PartialEq, Eq, Hash, Structural)]
pub struct Move {
    pub from: Square,
    pub to: Square,
    pub promotion: Option<PieceKind>,
}

/// A move in the notation of UCI: two squares and, for a promotion, a letter.
pub open spec fn uci_text(mv: Move) -> Seq<char> {
    square_name(mv.from) + square_name(mv.to) + (match mv.promotion {
        Some(kind) => seq![kind_letter(kind)],
        None => Seq::<char>::empty(),
    })
}

/// The move that a text in UCI notation names. Only what a pawn can become is
/// read as a promotion.
pub open spec fn uci_named(s: Seq<char>) -> Option<Move> {
    if s.len() == 4 || s.len() == 5 {
        match (square_named(s.subrange(0, 2)), square_named(s.subrange(2, 4))) {
            (Some(from), Some(to)) => if s.len() == 4 {
                Some(Move { from, to, promotion: None })
            } else {
                match kind_named(s[4]) {
                    Some(kind) => if promotable(kind) {
                        Some(Move { from, to, promotion: Some(kind) })
                    } else {
                        None
                    },
                    None => None,
                }
            },
            _ => None,
        }
    } else {
        None
    }
}

/// The byte that stands for a promotion in signed data. Each has its own.
pub open spec fn promotion_tag(promotion: Option<PieceKind>) -> u8 {
    match promotion {
        None => 0,
        Some(PieceKind::Knight) => 1,
        Some(PieceKind::Bishop) => 2,
        Some(PieceKind::Rook) => 3,
        Some(PieceKind::Queen) => 4,
        Some(PieceKind::Pawn) => 5,
        Some(PieceKind::King) => 6,
    }
}

/// The bytes a signature over a move covers.
pub open spec fn move_bytes(mv: Move) -> Seq<u8> {
    seq![mv.from.0, mv.to.0, promotion_tag(mv.promotion)]
}

impl Move {
    /// Whether both squares are on the board.
    pub open spec fn valid(self) -> bool {
        self.from.valid() && self.to.valid()
    }

    pub fn new(from: Square, to: Square) -> (r: Move)
        ensures
            r == (Move { from, to, promotion: None }),
    {
        Move { from, to, promotion: None }
    }

    pub fn promoting(from: Square, to: Square, kind: PieceKind) -> (r: Move)
        ensures
            r == (Move { from, to, promotion: Some(kind) }),
    {
        Move { from, to, promotion: Some(kind) }
    }

    pub fn to_uci(self) -> (r: String)
        requires
            self.valid(),
        ensures
            r@ == uci_text(self),
    {
        let mut out = String::new();
        self.from.push_name(&mut out);
        self.to.push_name(&mut out);
        if let Some(kind) = self.promotion {
            out.push(kind.letter());
        }
        assert(out@ =~= uci_text(self));
        out
    }

    pub fn from_uci(s: &str) -> (r: Option<Move>)
        ensures
            r == uci_named(s@),
            r matches Some(mv) ==> mv.valid(),
    {
        let cs = chars_of(s);
        if cs.len() < 4 || cs.len() > 5 {
            return None;
        }
        let from = match Square::from_chars(&cs, 0, 2) {
            Some(sq) => sq,
            None => return None,
        };
        let to = match Square::from_chars(&cs, 2, 4) {
            Some(sq) => sq,
            None => return None,
        };
        if cs.len() == 4 {
            return Some(Move { from, to, promotion: None });
        }
        match PieceKind::from_letter(cs[4]) {
            Some(kind) => if kind.is_promotable() {
                Some(Move { from, to, promotion: Some(kind) })
            } else {
                None
            },
            None => None,
        }
    }

    pub fn signing_bytes(self) -> (r: [u8; 3])
        ensures
            r@ == move_bytes(self),
    {
        let promo: u8 = match self.promotion {
            None => 0,
            Some(PieceKind::Knight) => 1,
            Some(PieceKind::Bishop) => 2,
            Some(PieceKind::Rook) => 3,
            Some(PieceKind::Queen) => 4,
            Some(PieceKind::Pawn) => 5,
            Some(PieceKind::King) => 6,
        };
        let r = [self.from.0, self.to.0, promo];
        assert(r@ =~= move_bytes(self));
        r
    }
}

/// Every move that a pawn or a piece can make is read back from its UCI text.
pub proof fn law_uci_reads_back(mv: Move)
    requires
        mv.valid(),
        mv.promotion matches Some(kind) ==> promotable(kind),
    ensures
        uci_named(uci_text(mv)) == Some(mv),
{
    let s = uci_text(mv);
    assert(s.subrange(0, 2) =~= square_name(mv.from));
    assert(s.subrange(2, 4) =~= square_name(mv.to));
    law_square_name_reads_back(mv.from);
    law_square_name_reads_back(mv.to);
}

/// Two moves that sign alike are one move, promotions included.
pub proof fn law_move_bytes_do_not_alias(a: Move, b: Move)
    requires
        move_bytes(a) == move_bytes(b),
    ensures
        a == b,
{
    assert(move_bytes(a)[0] == move_bytes(b)[0]);
    assert(move_bytes(a)[1] == move_bytes(b)[1]);
    assert(move_bytes(a)[2] == move_bytes(b)[2]);
}

#[derive(Debug, Clone, Copy, PartialEq, Eq, Hash, Structural)]
pub struct CastlingRights {
    pub white_kingside: bool,
    pub white_queenside: bool,
    pub black_kingside: bool,
    pub black_queenside: bool,
}

/// Castling rights as FEN writes them.
pub open spec fn castling_text(c: CastlingRights) -> Seq<char> {
    let flags = castling_flags(c);
    if flags.len() == 0 {
        seq!['-']
    } else {
        flags
    }
}

/// The letters of the rights that are left.
pub open spec fn castling_flags(c: CastlingRights) -> Seq<char> {
    flag(c.white_kingside, 'K') + flag(c.white_queenside, 'Q') + flag(c.black_kingside, 'k') + flag(
        c.black_queenside,
        'q',
    )
}

pub open spec fn flag(on: bool, c: char) -> Seq<char> {
    if on {
        seq![c]
    } else {
        Seq::empty()
    }
}

impl Default for CastlingRights {
    fn default() -> (r: Self)
        ensures
            r == CastlingRights::all(),
    {
        CastlingRights {
            white_kingside: true,
            white_queenside: true,
            black_kingside: true,
            black_queenside: true,
        }
    }
}

impl CastlingRights {
    pub open spec fn all() -> CastlingRights {
        CastlingRights {
            white_kingside: true,
            white_queenside: true,
            black_kingside: true,
            black_queenside: true,
        }
    }

    pub open spec fn nothing() -> CastlingRights {
        CastlingRights {
            white_kingside: false,
            white_queenside: false,
            black_kingside: false,
            black_queenside: false,
        }
    }

    /// The rights that are left to the other side alone.
    pub open spec fn without(self, color: Color) -> CastlingRights {
        match color {
            Color::White => CastlingRights {
                white_kingside: false,
                white_queenside: false,
                ..self
            },
            Color::Black => CastlingRights {
                black_kingside: false,
                black_queenside: false,
                ..self
            },
        }
    }

    pub open spec fn kingside_of(self, color: Color) -> bool {
        match color {
            Color::White => self.white_kingside,
            Color::Black => self.black_kingside,
        }
    }

    pub open spec fn queenside_of(self, color: Color) -> bool {
        match color {
            Color::White => self.white_queenside,
            Color::Black => self.black_queenside,
        }
    }

    pub fn none() -> (r: Self)
        ensures
            r == CastlingRights::nothing(),
    {
        CastlingRights {
            white_kingside: false,
            white_queenside: false,
            black_kingside: false,
            black_queenside: false,
        }
    }

    pub fn kingside(&self, color: Color) -> (r: bool)
        ensures
            r == self.kingside_of(color),
    {
        match color {
            Color::White => self.white_kingside,
            Color::Black => self.black_kingside,
        }
    }

    pub fn queenside(&self, color: Color) -> (r: bool)
        ensures
            r == self.queenside_of(color),
    {
        match color {
            Color::White => self.white_queenside,
            Color::Black => self.black_queenside,
        }
    }

    pub fn clear_for(&mut self, color: Color)
        ensures
            *final(self) == old(self).without(color),
    {
        match color {
            Color::White => {
                self.white_kingside = false;
                self.white_queenside = false;
            },
            Color::Black => {
                self.black_kingside = false;
                self.black_queenside = false;
            },
        }
    }

    pub fn to_fen(self) -> (r: String)
        ensures
            r@ == castling_text(self),
    {
        let mut s = String::new();
        if self.white_kingside {
            s.push('K');
        }
        if self.white_queenside {
            s.push('Q');
        }
        if self.black_kingside {
            s.push('k');
        }
        if self.black_queenside {
            s.push('q');
        }
        assert(s@ =~= castling_flags(self));
        if s.as_str().is_empty() {
            s.push('-');
            assert(s@ =~= seq!['-']);
        }
        s
    }
}

/// Where a game stands.
#[derive(Debug, Clone, Copy, PartialEq, Eq, Structural)]
pub enum GameStatus {
    InProgress,
    Checkmate { winner: Color },
    Stalemate,
    InsufficientMaterial,
    FiftyMoveRule,
    ThreefoldRepetition,
}

impl GameStatus {
    pub fn is_over(self) -> (r: bool)
        ensures
            r == (self != GameStatus::InProgress),
    {
        !matches!(self, GameStatus::InProgress)
    }
}

} // verus!
