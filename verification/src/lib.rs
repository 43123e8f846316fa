//! A rules engine for the board game of Go: board state, move legality
//! (occupancy, suicide, positional superko), capture resolution, and area
//! scoring with territory and komi.

pub mod board;
pub mod color;
pub mod conn;
pub mod error;
pub mod game;
pub mod laws;
pub mod point;
pub mod zobrist;

pub use board::{Board, GroupInfo};
pub use color::Color;
pub use error::RuleViolation;
pub use laws::{
    lemma_blank_board_neutral, lemma_double_pass, lemma_initial_score, lemma_isolated_stone_is_legal,
    lemma_legal_moves_exact,
    lemma_read_only_idempotent,
};
pub use game::{
    BoardSnapshot, Captures, GameConfig, GameState, Move, MoveOutcome, MoveRecordSnapshot,
    ScoreSummary,
};
pub use point::Point;
pub use zobrist::ZobristTable;
