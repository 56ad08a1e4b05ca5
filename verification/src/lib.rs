//! FreeChess: a chess game two players can play over a replicated store.
//!
//! The rules of chess, the signed records the players exchange, and the way
//! two copies of the same record set are merged into one.

pub mod account;
pub mod admin;
pub mod archive;
pub mod bytes;
pub mod certificate;
pub mod chess;
pub mod crypto;
pub mod cutting;
pub mod delegate;
pub mod delegate_api;
pub mod elo;
pub mod game;
pub mod identity;
pub mod join;
pub mod leaderboard;
pub mod ledger;
pub mod lists;
pub mod lobby;
pub mod order;
pub mod player;
pub mod prefix;
pub mod presence;
pub mod search;
pub mod signed;
pub mod sorted_map;
pub mod sync;
pub mod text;
pub mod web_container;
pub mod web_contract;

pub use archive::{ArchiveParametersV1, ArchiveStateV1, ShardId};
pub use certificate::{CertificateDraft, GameCertificate};
pub use chess::{Board, Color, Game, GameStatus, Move, Piece, PieceKind, Square};
pub use game::{ChessGameParametersV1, ChessGameStateV1, GameResult};
pub use identity::{GameId, PlayerId};
pub use leaderboard::{LeaderboardV1, RankEntry};
pub use lobby::{LobbyEntry, LobbyParametersV1, LobbyStateV1};
pub use player::{PlayerParametersV1, PlayerStateV1};
