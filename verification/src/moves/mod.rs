//! Compact move encoding plus strict UCI and SAN conversion.

mod encoding;
mod san;
mod uci_move;

pub use encoding::{encode, group_move_bounds, Move, MoveKind};
pub use san::{all_fit, body_with, check_suffix, disambiguation, disambiguation_among, from_san, is_capture, is_rival, lemma_pawn_capture_san, lemma_pawn_push_san, lemma_piece_san_letter, normalized_san, san_body, san_bytes, to_san, written_as};
pub use uci_move::{names_move, parse_uci_move, uci_promotion, uci_syntax_error, MoveError};
