//! The game of chess: pieces and moves, the rules, the board, whole games.

pub mod board;
pub mod fen;
pub mod game;
pub mod geometry;
pub mod laws;
pub mod listed;
pub mod notation;
pub mod rules;
pub mod types;
pub mod verdicts;

pub use board::{Board, MoveError, MoveOutcome};
pub use fen::{FenError, STARTING_FEN};
pub use game::Game;
pub use types::{CastlingRights, Color, GameStatus, Move, Piece, PieceKind, Square};
