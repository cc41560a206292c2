//! Piece, colour and table constants shared by the whole engine.

use vstd::prelude::*;

verus! {

// Piece kinds, stored in the board's piece array.
pub const PAWN: i8 = 1;
pub const KNIGHT: i8 = 2;
pub const BISHOP: i8 = 3;
pub const ROOK: i8 = 4;
pub const QUEEN: i8 = 5;
pub const KING: i8 = 6;

// Colours, stored in the board's colour array and in `side_to_move`.
pub const WHITE: i8 = 1;
pub const BLACK: i8 = 2;
pub const EMPTY: i8 = 0;

// MVV_LVA[victim * 7 + attacker]: Most Valued Victim, Least Valued Attacker
// ordering scores, indexed by piece codes. Quiet moves (victim none) and
// king victims score zero.
pub const MVV_LVA: [u8; 49] = [
    0, 0, 0, 0, 0, 0, 0, // victim none
    10, 11, 12, 13, 14, 15, 0, // victim P
    20, 21, 22, 23, 24, 25, 0, // victim N
    30, 31, 32, 33, 34, 35, 0, // victim B
    40, 41, 42, 43, 44, 45, 0, // victim R
    50, 51, 52, 53, 54, 55, 0, // victim Q
    0, 0, 0, 0, 0, 0, 0, // victim K
];

pub open spec fn spec_mvv_lva(victim: i8, attacker: i8) -> u8 {
    MVV_LVA@[victim as int * 7 + attacker as int]
}

/// Ordering score a capture receives: table lookup over victim and attacker.
pub fn mvv_lva_value(victim: i8, attacker: i8) -> (v: u8)
    requires
        0 <= victim <= 6,
        0 <= attacker <= 6,
    ensures
        v == spec_mvv_lva(victim, attacker),
{
    MVV_LVA[(victim as usize) * 7 + (attacker as usize)]
}

// Piece-square tables, row-major from rank 8 (as seen by white; black uses
// the point-mirrored entry).
pub const MG_PAWN_TABLE: [i32; 64] = [
    0, 0, 0, 0, 0, 0, 0, 0, 98, 134, 61, 95, 68, 126, 34, -11, -6, 7, 26, 31, 65, 56, 25, -20, -14,
    13, 6, 21, 23, 12, 17, -23, -27, -2, -5, 12, 17, 6, 10, -25, -26, -4, -4, -10, 3, 3, 33, -12,
    -35, -1, -20, -23, -15, 24, 38, -22, 0, 0, 0, 0, 0, 0, 0, 0,
];

pub const MG_KNIGHT_TABLE: [i32; 64] = [
    -167, -89, -34, -49, 61, -97, -15, -107, -73, -41, 72, 36, 23, 62, 7, -17, -47, 60, 37, 65, 84,
    129, 73, 44, -9, 17, 19, 53, 37, 69, 18, 22, -13, 4, 16, 13, 28, 19, 21, -8, -23, -9, 12, 10,
    19, 17, 25, -16, -29, -53, -12, -3, -1, 18, -14, -19, -105, -21, -58, -33, -17, -28, -19, -23,
];

pub const MG_BISHOP_TABLE: [i32; 64] = [
    -29, 4, -82, -37, -25, -42, 7, -8, -26, 16, -18, -13, 30, 59, 18, -47, -16, 37, 43, 40, 35, 50,
    37, -2, -4, 5, 19, 50, 37, 37, 7, -2, -6, 13, 13, 26, 34, 12, 10, 4, 0, 15, 15, 15, 14, 27, 18,
    10, 4, 15, 16, 0, 7, 21, 33, 1, -33, -3, -14, -21, -13, -12, -39, -21,
];

pub const MG_ROOK_TABLE: [i32; 64] = [
    32, 42, 32, 51, 63, 9, 31, 43, 27, 32, 58, 62, 80, 67, 26, 44, -5, 19, 26, 36, 17, 45, 61, 16,
    -24, -11, 7, 26, 24, 35, -8, -20, -36, -26, -12, -1, 9, -7, 6, -23, -45, -25, -16, -17, 3, 0,
    -5, -33, -44, -16, -20, -9, -1, 11, -6, -71, -19, -13, 1, 17, 16, 7, -37, -26,
];

pub const MG_QUEEN_TABLE: [i32; 64] = [
    -28, 0, 29, 12, 59, 44, 43, 45, -24, -39, -5, 1, -16, 57, 28, 54, -13, -17, 7, 8, 29, 56, 47,
    57, -27, -27, -16, -16, -1, 17, -2, 1, -9, -26, -9, -10, -2, -4, 3, -3, -14, 2, -11, -2, -5, 2,
    14, 5, -35, -8, 11, 2, 8, 15, -3, 1, -1, -18, -9, 10, -15, -25, -31, -50,
];

pub const MG_KING_TABLE: [i32; 64] = [
    -65, 23, 16, -15, -56, -34, 2, 13, 29, -1, -20, -7, -8, -4, -38, -29, -9, 24, 2, -16, -20, 6,
    22, -22, -17, -20, -12, -27, -30, -25, -14, -36, -49, -1, -27, -39, -46, -44, -33, -51, -14,
    -14, -22, -46, -44, -30, -15, -27, 1, 7, -8, -64, -43, -16, 9, 8, -15, 36, 12, -54, 8, -28, 24,
    14,
];

pub const EG_KING_TABLE: [i32; 64] = [
    -74, -35, -18, -18, -11, 15, 4, -17, -12, 17, 14, 17, 17, 38, 23, 11, 10, 17, 23, 15, 20, 45,
    44, 13, -8, 22, 24, 27, 26, 33, 26, 3, -18, -4, 21, 24, 27, 23, 9, -11, -19, -3, 11, 21, 23,
    16, 7, -9, -27, -11, 4, 13, 14, 4, -5, -17, -53, -34, -21, -11, -28, -14, -24, -43,
];

/// Middlegame table entry for a piece kind.
pub open spec fn mg_entry(piece: i8, idx: int) -> i32 {
    if piece == PAWN {
        MG_PAWN_TABLE@[idx]
    } else if piece == KNIGHT {
        MG_KNIGHT_TABLE@[idx]
    } else if piece == BISHOP {
        MG_BISHOP_TABLE@[idx]
    } else if piece == ROOK {
        MG_ROOK_TABLE@[idx]
    } else if piece == QUEEN {
        MG_QUEEN_TABLE@[idx]
    } else if piece == KING {
        MG_KING_TABLE@[idx]
    } else {
        0
    }
}

/// Endgame table entry: the king uses its endgame table, the rest keep
/// their middlegame tables.
pub open spec fn eg_entry(piece: i8, idx: int) -> i32 {
    if piece == KING {
        EG_KING_TABLE@[idx]
    } else {
        mg_entry(piece, idx)
    }
}

/// Table index a piece of `colour` on `l` uses: white reads the table as
/// laid out, black reads the rank-mirrored entry.
pub open spec fn pst_idx(l: (usize, usize), colour: i8) -> int {
    if colour == WHITE {
        l.0 * 8 + l.1
    } else {
        (7 - l.0) * 8 + l.1
    }
}

pub open spec fn spec_pst_mg(l: (usize, usize), piece: i8, colour: i8) -> i32 {
    mg_entry(piece, pst_idx(l, colour))
}

pub open spec fn spec_pst_eg(l: (usize, usize), piece: i8, colour: i8) -> i32 {
    eg_entry(piece, pst_idx(l, colour))
}

/// Every table entry is small; used to bound the evaluation sum.
pub proof fn lemma_table_bounds()
    ensures
        forall|p: i8, idx: int| 0 <= idx < 64 ==> -500 <= #[trigger] mg_entry(p, idx) <= 500,
        forall|p: i8, idx: int| 0 <= idx < 64 ==> -500 <= #[trigger] eg_entry(p, idx) <= 500,
{
    assert(forall|idx: int| 0 <= idx < 64 ==> -500 <= #[trigger] MG_PAWN_TABLE@[idx] <= 500);
    assert(forall|idx: int| 0 <= idx < 64 ==> -500 <= #[trigger] MG_KNIGHT_TABLE@[idx] <= 500);
    assert(forall|idx: int| 0 <= idx < 64 ==> -500 <= #[trigger] MG_BISHOP_TABLE@[idx] <= 500);
    assert(forall|idx: int| 0 <= idx < 64 ==> -500 <= #[trigger] MG_ROOK_TABLE@[idx] <= 500);
    assert(forall|idx: int| 0 <= idx < 64 ==> -500 <= #[trigger] MG_QUEEN_TABLE@[idx] <= 500);
    assert(forall|idx: int| 0 <= idx < 64 ==> -500 <= #[trigger] MG_KING_TABLE@[idx] <= 500);
    assert(forall|idx: int| 0 <= idx < 64 ==> -500 <= #[trigger] EG_KING_TABLE@[idx] <= 500);
}

} // verus!
