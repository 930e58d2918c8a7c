//! All hand-tuned evaluation constants. They are modest classical values
//! intended as stable defaults rather than claims of optimal tuning;
//! changing them does not alter move legality or search semantics.

use vstd::prelude::*;

use crate::board::PieceKind;

verus! {

pub const MAX_PHASE: i32 = 24;
pub const DOUBLED_PAWN: i32 = 12;
pub const ISOLATED_PAWN: i32 = 14;
pub const CONNECTED_PAWN: i32 = 7;
pub const BACKWARD_PAWN: i32 = 8;
pub const BISHOP_PAIR_MG: i32 = 28;
pub const BISHOP_PAIR_EG: i32 = 40;
pub const ROOK_OPEN_FILE: i32 = 22;
pub const ROOK_SEMIOPEN_FILE: i32 = 11;
pub const KING_SHIELD: i32 = 12;
pub const KING_OPEN_FILE: i32 = 18;
pub const KING_ATTACK_UNIT: i32 = 7;
pub const SPACE_MG: i32 = 5;
pub const KING_CENTER_EG: i32 = 7;

/// Middlegame material value.
pub open spec fn mg_value_spec(k: PieceKind) -> int {
    match k {
        PieceKind::Pawn => 100,
        PieceKind::Knight => 320,
        PieceKind::Bishop => 335,
        PieceKind::Rook => 500,
        PieceKind::Queen => 950,
        PieceKind::King => 0,
    }
}

/// Endgame material value.
pub open spec fn eg_value_spec(k: PieceKind) -> int {
    match k {
        PieceKind::Pawn => 120,
        PieceKind::Knight => 305,
        PieceKind::Bishop => 325,
        PieceKind::Rook => 525,
        PieceKind::Queen => 925,
        PieceKind::King => 0,
    }
}

/// Weight of a piece in the game phase.
pub open spec fn phase_value_spec(k: PieceKind) -> int {
    match k {
        PieceKind::Knight => 1,
        PieceKind::Bishop => 1,
        PieceKind::Rook => 2,
        PieceKind::Queen => 4,
        _ => 0,
    }
}

/// Passed-pawn bonus by how far the pawn has advanced.
pub open spec fn passed_mg_spec(advance: int) -> int {
    if advance == 2 { 6 } else if advance == 3 { 13 } else if advance == 4 { 25 } else if advance == 5 { 45 } else if advance == 6 { 72 } else { 0 }
}

pub open spec fn passed_eg_spec(advance: int) -> int {
    if advance == 2 { 12 } else if advance == 3 { 28 } else if advance == 4 { 55 } else if advance == 5 { 90 } else if advance == 6 { 145 } else { 0 }
}

/// Mobility weight per reachable square.
pub open spec fn mobility_mg_spec(k: PieceKind) -> int {
    match k {
        PieceKind::Knight => 4,
        PieceKind::Bishop => 4,
        PieceKind::Rook => 2,
        PieceKind::Queen => 1,
        _ => 0,
    }
}

pub open spec fn mobility_eg_spec(k: PieceKind) -> int {
    match k {
        PieceKind::Knight => 3,
        PieceKind::Bishop => 3,
        PieceKind::Rook => 3,
        PieceKind::Queen => 2,
        _ => 0,
    }
}

/// Piece-square coefficients by file, symmetric about the centre.
pub open spec fn mg_file_spec(f: int) -> int {
    if f == 0 || f == 7 { -12 } else if f == 1 || f == 6 { -5 } else if f == 2 || f == 5 { 2 } else { 8 }
}

pub open spec fn eg_file_spec(f: int) -> int {
    if f == 0 || f == 7 { -7 } else if f == 1 || f == 6 { -2 } else if f == 2 || f == 5 { 3 } else { 6 }
}

/// Piece-square coefficients by rank, counted from the piece's own side.
pub open spec fn mg_rank_spec(k: PieceKind, r: int) -> int {
    let row: Seq<int> = match k {
        PieceKind::Pawn => seq![0int, 4, 8, 14, 21, 30, 0, 0],
        PieceKind::Knight => seq![-12int, -4, 2, 7, 8, 4, -3, -12],
        PieceKind::Bishop => seq![-7int, -1, 4, 7, 8, 5, 0, -8],
        PieceKind::Rook => seq![0int, 2, 4, 7, 9, 7, 4, 1],
        PieceKind::Queen => seq![-3int, 0, 3, 5, 6, 4, 1, -4],
        PieceKind::King => seq![16int, 8, 1, -10, -16, -18, -10, 2],
    };
    row[r]
}

pub open spec fn eg_rank_spec(k: PieceKind, r: int) -> int {
    let row: Seq<int> = match k {
        PieceKind::Pawn => seq![0int, 5, 12, 22, 38, 60, 0, 0],
        PieceKind::Knight => seq![-5int, -1, 3, 5, 6, 5, 1, -5],
        PieceKind::Bishop => seq![-4int, 0, 3, 5, 6, 4, 1, -4],
        PieceKind::Rook => seq![1int, 3, 5, 7, 8, 7, 5, 3],
        PieceKind::Queen => seq![0int, 2, 4, 6, 7, 6, 4, 2],
        PieceKind::King => seq![-18int, -8, 2, 12, 18, 20, 12, 2],
    };
    row[r]
}

pub fn mg_value(k: PieceKind) -> (r: i32)
    ensures
        r == mg_value_spec(k),
{
    match k {
        PieceKind::Pawn => 100,
        PieceKind::Knight => 320,
        PieceKind::Bishop => 335,
        PieceKind::Rook => 500,
        PieceKind::Queen => 950,
        PieceKind::King => 0,
    }
}

pub fn eg_value(k: PieceKind) -> (r: i32)
    ensures
        r == eg_value_spec(k),
{
    match k {
        PieceKind::Pawn => 120,
        PieceKind::Knight => 305,
        PieceKind::Bishop => 325,
        PieceKind::Rook => 525,
        PieceKind::Queen => 925,
        PieceKind::King => 0,
    }
}

pub fn phase_value(k: PieceKind) -> (r: i32)
    ensures
        r == phase_value_spec(k),
{
    match k {
        PieceKind::Knight => 1,
        PieceKind::Bishop => 1,
        PieceKind::Rook => 2,
        PieceKind::Queen => 4,
        _ => 0,
    }
}

pub fn passed_mg(advance: u8) -> (r: i32)
    ensures
        r == passed_mg_spec(advance as int),
{
    if advance == 2 { 6 } else if advance == 3 { 13 } else if advance == 4 { 25 } else if advance == 5 { 45 } else if advance == 6 { 72 } else { 0 }
}

pub fn passed_eg(advance: u8) -> (r: i32)
    ensures
        r == passed_eg_spec(advance as int),
{
    if advance == 2 { 12 } else if advance == 3 { 28 } else if advance == 4 { 55 } else if advance == 5 { 90 } else if advance == 6 { 145 } else { 0 }
}

pub fn mobility_mg(k: PieceKind) -> (r: i32)
    ensures
        r == mobility_mg_spec(k),
{
    match k {
        PieceKind::Knight => 4,
        PieceKind::Bishop => 4,
        PieceKind::Rook => 2,
        PieceKind::Queen => 1,
        _ => 0,
    }
}

pub fn mobility_eg(k: PieceKind) -> (r: i32)
    ensures
        r == mobility_eg_spec(k),
{
    match k {
        PieceKind::Knight => 3,
        PieceKind::Bishop => 3,
        PieceKind::Rook => 3,
        PieceKind::Queen => 2,
        _ => 0,
    }
}

pub fn mg_file(f: u8) -> (r: i32)
    requires
        f < 8,
    ensures
        r == mg_file_spec(f as int),
{
    if f == 0 || f == 7 { -12 } else if f == 1 || f == 6 { -5 } else if f == 2 || f == 5 { 2 } else { 8 }
}

pub fn eg_file(f: u8) -> (r: i32)
    requires
        f < 8,
    ensures
        r == eg_file_spec(f as int),
{
    if f == 0 || f == 7 { -7 } else if f == 1 || f == 6 { -2 } else if f == 2 || f == 5 { 3 } else { 6 }
}

pub fn mg_rank(k: PieceKind, r: u8) -> (v: i32)
    requires
        r < 8,
    ensures
        v == mg_rank_spec(k, r as int),
        -20 <= v <= 30,
{
    let row: [i32; 8] = match k {
        PieceKind::Pawn => [0, 4, 8, 14, 21, 30, 0, 0],
        PieceKind::Knight => [-12, -4, 2, 7, 8, 4, -3, -12],
        PieceKind::Bishop => [-7, -1, 4, 7, 8, 5, 0, -8],
        PieceKind::Rook => [0, 2, 4, 7, 9, 7, 4, 1],
        PieceKind::Queen => [-3, 0, 3, 5, 6, 4, 1, -4],
        PieceKind::King => [16, 8, 1, -10, -16, -18, -10, 2],
    };
    row[r as usize]
}

pub fn eg_rank(k: PieceKind, r: u8) -> (v: i32)
    requires
        r < 8,
    ensures
        v == eg_rank_spec(k, r as int),
        -20 <= v <= 60,
{
    let row: [i32; 8] = match k {
        PieceKind::Pawn => [0, 5, 12, 22, 38, 60, 0, 0],
        PieceKind::Knight => [-5, -1, 3, 5, 6, 5, 1, -5],
        PieceKind::Bishop => [-4, 0, 3, 5, 6, 4, 1, -4],
        PieceKind::Rook => [1, 3, 5, 7, 8, 7, 5, 3],
        PieceKind::Queen => [0, 2, 4, 6, 7, 6, 4, 2],
        PieceKind::King => [-18, -8, 2, 12, 18, 20, 12, 2],
    };
    row[r as usize]
}

} // verus!
