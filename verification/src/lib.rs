//! A chess engine core: board state with FEN and Zobrist hashing, strictly
//! legal move generation, notation, evaluation, and alpha-beta search.
//!
//! Squares are numbered little-endian rank-file: `a1 == 0`, `h1 == 7`, and
//! `a8 == 56`. This makes White pawn pushes `+8` and Black pawn pushes `-8`.

pub mod bitboard;
pub mod text;
pub mod board;
pub mod moves;
pub mod movegen;
pub mod tt;
pub mod eval;
pub mod search;
pub mod perft;
pub mod uci;

pub use board::{Color, FenError, Piece, PieceKind, Position, PositionError, Square};
pub use moves::{Move, MoveError};
pub use search::{Engine, SearchLimits, SearchResult};

use vstd::prelude::*;

verus! {

/// Standard initial chess position.
pub const STARTPOS_FEN: &'static str = "rnbqkbnr/pppppppp/8/8/8/8/PPPPPPPP/RNBQKBNR w KQkq - 0 1";

} // verus!
