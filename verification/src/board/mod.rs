//! Board state, FEN, and deterministic Zobrist hashing.
//!
//! The board deliberately keeps both bitboards and a mailbox. Bitboards are
//! the fast representation for attacks; the mailbox makes captures, notation,
//! and defensive validation unambiguous. Every mutation goes through
//! `add_piece`/`remove_piece`, which maintain both representations together.

pub mod fen;
mod position;
mod types;
pub mod zobrist;

pub use position::{
    after_move, after_null, applicable, board_after, capture_square, captured_piece, castle_rook_from, castle_rook_to,
    castling_after, clear_rook_spec, ep_after, ep_victim_square, full_key, fullmove_after, halfmove_after, is_castle_kind,
    king_home, model_ok, ep_ok, fen_accepted, fen_bytes, fen_message, lemma_fen_round_trip, fen_model, start_model, validation, occupancy_of, count_of, count_on, insufficient_material, lemma_bare_kings_dead, lemma_halfmove_clock, lemma_heavy_not_dead, lemma_key_tells_castling, lemma_lone_minor_dead, lemma_same_colour_bishops_dead, lemma_two_minors_not_dead, occurrences, moving_piece, placed_piece, saturating_inc, skipped_square, FenError, Position, PositionError,
    PositionModel, Undo,
};
pub use types::{
    file_of, parse_square, rank_of, square_color, square_name, Color, Piece, PieceKind, Square,
    CASTLE_BK, CASTLE_BQ, CASTLE_WK, CASTLE_WQ,
};
pub use types::{file_spec, rank_spec, light_square, square_name_chars, square_of_bytes, square_from_bytes};
pub use zobrist::{keys, Keys};
