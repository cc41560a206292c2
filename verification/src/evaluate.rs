//! Static evaluation and attack/check detection. `evaluate` carries an exact
//! functional contract, and `lemma_evaluate_mirror_zero` proves that a
//! position that mirrors the two sides evaluates to exactly zero.

use vstd::prelude::*;
use crate::board::{
    Board, BoardModel, board_dims, cells_wf, first_king_from, flip_side, has_king, on_board,
    sq_idx,
};
use crate::constants::{PAWN, KNIGHT, BISHOP, ROOK, QUEEN, KING, WHITE, BLACK, EMPTY};
use crate::constants::{lemma_table_bounds, pst_idx, spec_pst_eg, spec_pst_mg};
use crate::conversion::{get_piece_square_value_eg, get_piece_square_value_mg};
use crate::movegen::{
    bishop_dirs, in_bounds, king_offs, knight_offs, lemma_slide_attack_lines,
    lemma_step_attack_offsets, pawn_offs, queen_dirs, rook_dirs, spec_bishop_attacks,
    spec_king_attacks, spec_knight_attacks, spec_pawn_attacks, spec_queen_attacks,
    spec_rook_attacks,
};

verus! {

/// Material values of the piece kinds.
#[derive(Debug, Clone, Copy)]
pub struct PieceValues {
    pub pawn: i32,
    pub knight: i32,
    pub bishop: i32,
    pub rook: i32,
    pub queen: i32,
    pub king: i32,
}

impl PieceValues {
    /// The values the evaluation uses, one per piece kind.
    pub fn standard() -> (v: PieceValues)
        ensures
            v.pawn == piece_base_value(PAWN),
            v.knight == piece_base_value(KNIGHT),
            v.bishop == piece_base_value(BISHOP),
            v.rook == piece_base_value(ROOK),
            v.queen == piece_base_value(QUEEN),
            v.king == piece_base_value(KING),
    {
        PieceValues { pawn: 100, knight: 320, bishop: 330, rook: 500, queen: 900, king: 20000 }
    }
}

/// The game phase switch: late positions use the endgame tables.
pub open spec fn spec_is_endgame(b: BoardModel) -> bool {
    b.ply > 50
}

pub fn is_endgame(board: &Board) -> (r: bool)
    ensures
        r == spec_is_endgame(board@),
{
    board.ply > 50
}

pub open spec fn piece_base_value(p: i8) -> int {
    if p == PAWN {
        100
    } else if p == KNIGHT {
        320
    } else if p == BISHOP {
        330
    } else if p == ROOK {
        500
    } else if p == QUEEN {
        900
    } else if p == KING {
        20000
    } else {
        0
    }
}

/// The signed score square `i` contributes: material plus table bonus,
/// positive for the side to move and negated for the opponent.
pub open spec fn eval_term(b: BoardModel, i: int) -> int {
    let p = b.pieces[i];
    if p == EMPTY {
        0
    } else {
        let l = (((i / 8) as usize), ((i % 8) as usize));
        let pst: i32 = if spec_is_endgame(b) {
            spec_pst_eg(l, p, b.colours[i])
        } else {
            spec_pst_mg(l, p, b.colours[i])
        };
        let v = piece_base_value(p) + pst;
        if b.colours[i] == b.side {
            v
        } else {
            -v
        }
    }
}

pub open spec fn eval_sum_range(b: BoardModel, lo: int, hi: int) -> int
    decreases hi - lo,
{
    if lo >= hi {
        0
    } else {
        eval_term(b, lo) + eval_sum_range(b, lo + 1, hi)
    }
}

/// The evaluation of a position: the sum of every square's signed score,
/// from the side to move's point of view.
pub open spec fn spec_evaluate(b: BoardModel) -> int {
    eval_sum_range(b, 0, 64)
}

proof fn lemma_eval_term_bound(b: BoardModel, i: int)
    requires
        0 <= i < 64,
    ensures
        -20500 <= eval_term(b, i) <= 20500,
{
    lemma_table_bounds();
}

/// The static evaluation: for every occupied square, a material value plus
/// a game-phase-dependent piece-square bonus, positive for the side to move
/// and negated for the opponent.
pub fn evaluate(board: &Board) -> (score: i32)
    requires
        board_dims(board@),
    ensures
        score == spec_evaluate(board@),
{
    let endgame = is_endgame(board);
    let mut score: i32 = 0;
    let mut i: usize = 0;
    while i < 64
        invariant
            board_dims(board@),
            i <= 64,
            endgame == spec_is_endgame(board@),
            score == eval_sum_range(board@, 0, i as int),
            -20500 * (i as int) <= score <= 20500 * (i as int),
        decreases 64 - i,
    {
        proof {
            lemma_eval_term_bound(board@, i as int);
            lemma_eval_split_last(board@, 0, i + 1);
        }
        let sq = (i / 8, i % 8);
        let piece = board.get_piece(sq);
        if piece != EMPTY {
            let colour = board.get_piece_colour(sq);
            let base: i32 = if piece == PAWN {
                100
            } else if piece == KNIGHT {
                320
            } else if piece == BISHOP {
                330
            } else if piece == ROOK {
                500
            } else if piece == QUEEN {
                900
            } else if piece == KING {
                20000
            } else {
                0
            };
            let pst: i32 = if endgame {
                get_piece_square_value_eg(sq, piece, colour)
            } else {
                get_piece_square_value_mg(sq, piece, colour)
            };
            proof {
                lemma_table_bounds();
            }
            let term: i32 = base + pst;
            if colour == board.side_to_move {
                score = score + term;
            } else {
                score = score - term;
            }
        }
        i = i + 1;
    }
    score
}


/// The evaluation sum over a slice is bounded by the slice's width.
pub proof fn lemma_eval_range_bound(b: BoardModel, lo: int, hi: int)
    requires
        0 <= lo <= hi <= 64,
    ensures
        -20500 * (hi - lo) <= eval_sum_range(b, lo, hi) <= 20500 * (hi - lo),
    decreases hi - lo,
{
    if lo < hi {
        lemma_eval_term_bound(b, lo);
        lemma_eval_range_bound(b, lo + 1, hi);
    }
}

/// Splitting the evaluation sum at its last element.
proof fn lemma_eval_split_last(b: BoardModel, lo: int, hi: int)
    requires
        lo < hi,
    ensures
        eval_sum_range(b, lo, hi) == eval_sum_range(b, lo, hi - 1) + eval_term(b, hi - 1),
    decreases hi - lo,
{
    if lo + 1 < hi {
        lemma_eval_split_last(b, lo + 1, hi);
        assert(eval_sum_range(b, lo, hi) == eval_term(b, lo) + eval_sum_range(b, lo + 1, hi));
        assert(eval_sum_range(b, lo, hi - 1) == eval_term(b, lo) + eval_sum_range(b, lo + 1, hi
            - 1));
    } else {
        assert(eval_sum_range(b, lo, hi) == eval_term(b, lo) + eval_sum_range(b, lo + 1, hi));
        assert(eval_sum_range(b, lo + 1, hi) == 0);
        assert(eval_sum_range(b, lo, hi - 1) == 0);
    }
}

// ---------------------------------------------------------------------------
// Evaluation symmetry: a position that mirrors the two sides scores zero.
// ---------------------------------------------------------------------------

pub open spec fn mirror_colour(c: i8) -> i8 {
    if c == WHITE {
        BLACK
    } else if c == BLACK {
        WHITE
    } else {
        EMPTY
    }
}

/// The same file on the rank-mirrored row.
pub open spec fn mirror_idx(i: int) -> int {
    (7 - i / 8) * 8 + i % 8
}

/// A position that is a mirror image between the sides: the piece on each
/// square reappears on the rank-mirrored square in the other colour.
pub open spec fn mirrored_position(b: BoardModel) -> bool {
    &&& board_dims(b)
    &&& cells_wf(b)
    &&& (b.side == WHITE || b.side == BLACK)
    &&& (forall|i: int| 0 <= i < 64 ==> b.pieces[mirror_idx(i)] == #[trigger] b.pieces[i])
    &&& (forall|i: int|
        0 <= i < 64 ==> b.colours[mirror_idx(i)] == mirror_colour(#[trigger] b.colours[i]))
}

/// Splitting the evaluation sum anywhere in the middle.
proof fn lemma_eval_split_at(b: BoardModel, lo: int, mid: int, hi: int)
    requires
        lo <= mid <= hi,
    ensures
        eval_sum_range(b, lo, hi) == eval_sum_range(b, lo, mid) + eval_sum_range(b, mid, hi),
    decreases mid - lo,
{
    if lo < mid {
        lemma_eval_split_at(b, lo + 1, mid, hi);
    }
}

/// Mirrored squares contribute opposite scores.
proof fn lemma_eval_term_mirror(b: BoardModel, i: int)
    requires
        mirrored_position(b),
        0 <= i < 64,
        i / 8 < 4,
    ensures
        eval_term(b, i) + eval_term(b, mirror_idx(i)) == 0,
{
    let j = mirror_idx(i);
    let q = i / 8;
    let r = i % 8;
    assert(i == 8 * q + r);
    assert(j == 8 * (7 - q) + r);
    assert(0 <= j < 64);
    assert(j / 8 == 7 - q && j % 8 == r) by (nonlinear_arith)
        requires
            j == 8 * (7 - q) + r && 0 <= r < 8 && 0 <= q < 8,
    ;
    assert(mirror_idx(j) == i);
    let p = b.pieces[i];
    assert(b.pieces[j] == p);
    if p != EMPTY {
        let li = (((i / 8) as usize), ((i % 8) as usize));
        let lj = (((j / 8) as usize), ((j % 8) as usize));
        let ci = b.colours[i];
        let cj = b.colours[j];
        assert(cj == mirror_colour(ci));
        assert(ci == WHITE || ci == BLACK);
        assert(pst_idx(li, ci) == pst_idx(lj, cj));
        assert((ci == b.side) <==> !(cj == b.side));
    }
}

/// One rank and its mirror rank cancel, column by column.
#[verifier::rlimit(100)]
proof fn lemma_eval_rank_mirror(b: BoardModel, q: int, k: int)
    requires
        mirrored_position(b),
        0 <= q < 4,
        0 <= k <= 8,
    ensures
        eval_sum_range(b, 8 * q, 8 * q + k) + eval_sum_range(b, 8 * (7 - q), 8 * (7 - q) + k)
            == 0,
    decreases k,
{
    if k > 0 {
        lemma_eval_rank_mirror(b, q, k - 1);
        lemma_eval_split_last(b, 8 * q, 8 * q + k);
        lemma_eval_split_last(b, 8 * (7 - q), 8 * (7 - q) + k);
        let i = 8 * q + (k - 1);
        assert(i / 8 == q && i % 8 == k - 1) by (nonlinear_arith)
            requires
                i == 8 * q + (k - 1) && 0 <= k - 1 < 8 && 0 <= q < 8,
        ;
        lemma_eval_term_mirror(b, i);
        assert(mirror_idx(i) == 8 * (7 - q) + (k - 1));
    }
}

/// Evaluation symmetry: a position that is a mirror-image material and
/// placement balance between the sides evaluates to exactly zero, whichever
/// side is to move.
pub proof fn lemma_evaluate_mirror_zero(b: BoardModel)
    requires
        mirrored_position(b),
    ensures
        spec_evaluate(b) == 0,
{
    lemma_eval_split_at(b, 0, 8, 64);
    lemma_eval_split_at(b, 8, 16, 64);
    lemma_eval_split_at(b, 16, 24, 64);
    lemma_eval_split_at(b, 24, 32, 64);
    lemma_eval_split_at(b, 32, 40, 64);
    lemma_eval_split_at(b, 40, 48, 64);
    lemma_eval_split_at(b, 48, 56, 64);
    lemma_eval_rank_mirror(b, 0, 8);
    lemma_eval_rank_mirror(b, 1, 8);
    lemma_eval_rank_mirror(b, 2, 8);
    lemma_eval_rank_mirror(b, 3, 8);
}

// ---------------------------------------------------------------------------
// Attack detection.
// ---------------------------------------------------------------------------

/// The square with row-major index `i`.
pub open spec fn square_of(i: int) -> (usize, usize) {
    (((i / 8) as usize), ((i % 8) as usize))
}

/// Does the piece of `side` standing on `from` attack `to`?
pub open spec fn attacks_square(
    b: BoardModel,
    from: (usize, usize),
    piece: i8,
    side: i8,
    to: (usize, usize),
) -> bool {
    if piece == PAWN {
        spec_pawn_attacks(b, from, side).contains(to)
    } else if piece == KNIGHT {
        spec_knight_attacks(b, from, side).contains(to)
    } else if piece == BISHOP {
        spec_bishop_attacks(b, from, side).contains(to)
    } else if piece == ROOK {
        spec_rook_attacks(b, from, side).contains(to)
    } else if piece == QUEEN {
        spec_queen_attacks(b, from, side).contains(to)
    } else if piece == KING {
        spec_king_attacks(b, from, side).contains(to)
    } else {
        false
    }
}

/// Linear scan for a square in an attack list.
fn contains_square(v: &Vec<(usize, usize)>, target: (usize, usize)) -> (r: bool)
    ensures
        r == v@.contains(target),
{
    let mut i: usize = 0;
    while i < v.len()
        invariant
            i <= v@.len(),
            forall|j: int| 0 <= j < i ==> v@[j] != target,
        decreases v@.len() - i,
    {
        let t = v[i];
        if t.0 == target.0 && t.1 == target.1 {
            proof {
                assert(v@[i as int] == target);
            }
            return true;
        }
        i = i + 1;
    }
    proof {
        assert(!v@.contains(target));
    }
    false
}

/// Does the piece of `side_to_generate_for` on `square_from` attack
/// `square_to`? Cheap distance filters rule out most pieces before their
/// attack squares are generated; the filters are proved sound against the
/// attack-set specification.
#[verifier::rlimit(100)]
pub fn is_attacked_by_piece_from_square(
    board: &Board,
    square_from: (usize, usize),
    piece_type: i8,
    square_to: (usize, usize),
    side_to_generate_for: i8,
) -> (r: bool)
    requires
        board_dims(board@),
        on_board(square_from),
        on_board(square_to),
        side_to_generate_for == WHITE || side_to_generate_for == BLACK,
    ensures
        r == attacks_square(board@, square_from, piece_type, side_to_generate_for, square_to),
{
    let ghost b = board@;
    let side = side_to_generate_for;
    let dr: usize = if square_to.0 >= square_from.0 {
        square_to.0 - square_from.0
    } else {
        square_from.0 - square_to.0
    };
    let dc: usize = if square_to.1 >= square_from.1 {
        square_to.1 - square_from.1
    } else {
        square_from.1 - square_to.1
    };
    if piece_type == PAWN {
        if dc > 1 || dr > 1 || (dc == 0 && dr == 1) || (dc == 1 && dr == 0) {
            proof {
                lemma_step_attack_offsets(b, square_from, side, pawn_offs(side), true, 2);
                assert(!spec_pawn_attacks(b, square_from, side).contains(square_to)) by {
                    if spec_pawn_attacks(b, square_from, side).contains(square_to) {
                        let j = choose|j: int|
                            0 <= j < spec_pawn_attacks(b, square_from, side).len()
                                && spec_pawn_attacks(b, square_from, side)[j] == square_to;
                        assert(false);
                    }
                }
            }
            return false;
        }
        let atts = crate::movegen::get_pawn_attacks(square_from, side, board);
        contains_square(&atts, square_to)
    } else if piece_type == KNIGHT {
        if dr > 2 || dc > 2 || (dr < 2 && dc < 2) {
            proof {
                lemma_step_attack_offsets(b, square_from, side, knight_offs(), false, 8);
                assert(!spec_knight_attacks(b, square_from, side).contains(square_to)) by {
                    if spec_knight_attacks(b, square_from, side).contains(square_to) {
                        let j = choose|j: int|
                            0 <= j < spec_knight_attacks(b, square_from, side).len()
                                && spec_knight_attacks(b, square_from, side)[j] == square_to;
                        assert(false);
                    }
                }
            }
            return false;
        }
        let atts = crate::movegen::get_knight_attacks(square_from, side, board);
        contains_square(&atts, square_to)
    } else if piece_type == BISHOP {
        if dc == 0 || dr == 0 || dr != dc {
            proof {
                lemma_slide_attack_lines(b, square_from, side, bishop_dirs(), 4);
                assert(!spec_bishop_attacks(b, square_from, side).contains(square_to)) by {
                    if spec_bishop_attacks(b, square_from, side).contains(square_to) {
                        let j = choose|j: int|
                            0 <= j < spec_bishop_attacks(b, square_from, side).len()
                                && spec_bishop_attacks(b, square_from, side)[j] == square_to;
                        let (k, m) = choose|k: int, m: int|
                            0 <= k < 4 && 1 <= m < 8 && square_to.0 == square_from.0 + #[trigger] ((
                            bishop_dirs()[k]).0 * m) && square_to.1 == square_from.1 + (
                            bishop_dirs()[k]).1 * m;
                        let d = bishop_dirs()[k];
                        assert(d == (-1int, -1int) || d == (-1int, 1int) || d == (1int, -1int) || d
                            == (1int, 1int));
                        assert(d.0 * m == m || d.0 * m == -m) by (nonlinear_arith)
                            requires
                                d.0 == 1 || d.0 == -1,
                        ;
                        assert(d.1 * m == m || d.1 * m == -m) by (nonlinear_arith)
                            requires
                                d.1 == 1 || d.1 == -1,
                        ;
                        assert(dr == m && dc == m);
                        assert(false);
                    }
                }
            }
            return false;
        }
        let atts = crate::movegen::get_bishop_attacks(square_from, side, board);
        contains_square(&atts, square_to)
    } else if piece_type == ROOK {
        if dr != 0 && dc != 0 {
            proof {
                lemma_slide_attack_lines(b, square_from, side, rook_dirs(), 4);
                assert(!spec_rook_attacks(b, square_from, side).contains(square_to)) by {
                    if spec_rook_attacks(b, square_from, side).contains(square_to) {
                        let j = choose|j: int|
                            0 <= j < spec_rook_attacks(b, square_from, side).len()
                                && spec_rook_attacks(b, square_from, side)[j] == square_to;
                        let (k, m) = choose|k: int, m: int|
                            0 <= k < 4 && 1 <= m < 8 && square_to.0 == square_from.0 + #[trigger] ((
                            rook_dirs()[k]).0 * m) && square_to.1 == square_from.1 + (
                            rook_dirs()[k]).1 * m;
                        let d = rook_dirs()[k];
                        assert(d == (-1int, 0int) || d == (1int, 0int) || d == (0int, -1int) || d
                            == (0int, 1int));
                        assert(d.0 == 0 ==> square_to.0 == square_from.0) by (nonlinear_arith)
                            requires
                                d.0 == 0 ==> square_to.0 == square_from.0 + d.0 * m,
                        ;
                        assert(d.1 == 0 ==> square_to.1 == square_from.1) by (nonlinear_arith)
                            requires
                                d.1 == 0 ==> square_to.1 == square_from.1 + d.1 * m,
                        ;
                        assert(dr == 0 || dc == 0);
                        assert(false);
                    }
                }
            }
            return false;
        }
        let atts = crate::movegen::get_rook_attacks(square_from, side, board);
        contains_square(&atts, square_to)
    } else if piece_type == QUEEN {
        if (dr != 0 && dc != 0) && dr != dc {
            proof {
                lemma_slide_attack_lines(b, square_from, side, queen_dirs(), 8);
                assert(!spec_queen_attacks(b, square_from, side).contains(square_to)) by {
                    if spec_queen_attacks(b, square_from, side).contains(square_to) {
                        let j = choose|j: int|
                            0 <= j < spec_queen_attacks(b, square_from, side).len()
                                && spec_queen_attacks(b, square_from, side)[j] == square_to;
                        let (k, m) = choose|k: int, m: int|
                            0 <= k < 8 && 1 <= m < 8 && square_to.0 == square_from.0 + #[trigger] ((
                            queen_dirs()[k]).0 * m) && square_to.1 == square_from.1 + (
                            queen_dirs()[k]).1 * m;
                        assert(false);
                    }
                }
            }
            return false;
        }
        let atts = crate::movegen::get_queen_moves(square_from, side, board);
        contains_square(&atts, square_to)
    } else if piece_type == KING {
        if dr > 1 || dc > 1 {
            proof {
                lemma_step_attack_offsets(b, square_from, side, king_offs(), false, 8);
                assert(!spec_king_attacks(b, square_from, side).contains(square_to)) by {
                    if spec_king_attacks(b, square_from, side).contains(square_to) {
                        let j = choose|j: int|
                            0 <= j < spec_king_attacks(b, square_from, side).len()
                                && spec_king_attacks(b, square_from, side)[j] == square_to;
                        assert(false);
                    }
                }
            }
            return false;
        }
        let atts = crate::movegen::get_king_attacks(square_from, side, board);
        contains_square(&atts, square_to)
    } else {
        false
    }
}

/// Some piece of `by` attacks `target`.
pub open spec fn spec_attacked(b: BoardModel, target: (usize, usize), by: i8) -> bool {
    exists|i: int|
        0 <= i < 64 && b.colours[i] == by && attacks_square(
            b,
            square_of(i),
            #[trigger] b.pieces[i],
            by,
            target,
        )
}

/// The square of the first king of `side` in scan order.
pub open spec fn king_square(b: BoardModel, side: i8) -> (usize, usize) {
    square_of(first_king_from(b, side, 0))
}

/// The king of `side` is attacked by the other side.
pub open spec fn spec_in_check(b: BoardModel, side: i8) -> bool {
    spec_attacked(b, king_square(b, side), flip_side(side))
}

/// Is the king of `side_to_check` attacked where it stands — and, when a
/// further square is given (the king's transit square during castling), is
/// that square attacked too?
pub fn is_in_check(
    board: &Board,
    side_to_check: i8,
    aditional_square_to_check: Option<(usize, usize)>,
) -> (r: bool)
    requires
        board_dims(board@),
        has_king(board@, side_to_check),
        side_to_check == WHITE || side_to_check == BLACK,
        aditional_square_to_check is Some ==> on_board(aditional_square_to_check->Some_0),
    ensures
        r == (spec_in_check(board@, side_to_check) || (aditional_square_to_check is Some
            && spec_attacked(
            board@,
            aditional_square_to_check->Some_0,
            flip_side(side_to_check),
        ))),
{
    let ghost b = board@;
    let opponent_colour = if side_to_check == WHITE {
        BLACK
    } else {
        WHITE
    };
    let king_location = match board.get_king_location(side_to_check) {
        Some(l) => l,
        None => {
            proof {
                assert(false);
            }
            (0, 0)
        },
    };
    proof {
        assert(king_location == king_square(b, side_to_check));
    }
    let mut i: usize = 0;
    while i < 64
        invariant
            board_dims(b),
            b == board@,
            on_board(king_location),
            king_location == king_square(b, side_to_check),
            opponent_colour == flip_side(side_to_check),
            opponent_colour == WHITE || opponent_colour == BLACK,
            aditional_square_to_check is Some ==> on_board(aditional_square_to_check->Some_0),
            i <= 64,
            forall|j: int|
                0 <= j < i ==> !(b.colours[j] == opponent_colour && attacks_square(
                    b,
                    square_of(j),
                    #[trigger] b.pieces[j],
                    opponent_colour,
                    king_location,
                )),
            forall|j: int|
                0 <= j < i ==> !(aditional_square_to_check is Some && b.colours[j]
                    == opponent_colour && attacks_square(
                    b,
                    square_of(j),
                    #[trigger] b.pieces[j],
                    opponent_colour,
                    aditional_square_to_check->Some_0,
                )),
        decreases 64 - i,
    {
        let sq = (i / 8, i % 8);
        let square_colour = board.get_piece_colour(sq);
        if square_colour == opponent_colour {
            let piece_type = board.get_piece(sq);
            let outcome = is_attacked_by_piece_from_square(
                board,
                sq,
                piece_type,
                king_location,
                opponent_colour,
            );
            if outcome {
                proof {
                    assert(b.colours[i as int] == opponent_colour && attacks_square(
                        b,
                        square_of(i as int),
                        b.pieces[i as int],
                        opponent_colour,
                        king_location,
                    ));
                }
                return true;
            }
            match aditional_square_to_check {
                Some(extra) => {
                    let outcome2 = is_attacked_by_piece_from_square(
                        board,
                        sq,
                        piece_type,
                        extra,
                        opponent_colour,
                    );
                    if outcome2 {
                        proof {
                            assert(b.colours[i as int] == opponent_colour && attacks_square(
                                b,
                                square_of(i as int),
                                b.pieces[i as int],
                                opponent_colour,
                                extra,
                            ));
                        }
                        return true;
                    }
                },
                None => {},
            }
        }
        i = i + 1;
    }
    false
}


impl Board {
    /// Is this side's king attacked where it stands?
    pub fn is_side_in_check(&self, side: i8) -> (r: bool)
        requires
            board_dims(self@),
            has_king(self@, side),
            side == WHITE || side == BLACK,
        ensures
            r == spec_in_check(self@, side),
    {
        is_in_check(self, side, None)
    }
}

// ---------------------------------------------------------------------------
// King-safety scoring.
// ---------------------------------------------------------------------------

/// The attack weight a piece kind contributes to the safety score.
pub open spec fn attack_weight(p: i8) -> int {
    if p == PAWN {
        1
    } else if p == KNIGHT {
        20
    } else if p == BISHOP {
        20
    } else if p == ROOK {
        40
    } else if p == QUEEN {
        80
    } else if p == KING {
        1
    } else {
        0
    }
}

/// Index of the first square at or after `i` holding a piece of `by` that
/// attacks `target`, or 64.
pub open spec fn first_attacker_from(
    b: BoardModel,
    target: (usize, usize),
    by: i8,
    i: int,
) -> int
    decreases 64 - i,
{
    if i < 0 || i >= 64 {
        64
    } else if b.colours[i] == by && attacks_square(b, square_of(i), b.pieces[i], by, target) {
        i
    } else {
        first_attacker_from(b, target, by, i + 1)
    }
}

/// The nine offsets examined around the square: its neighbours and itself.
pub open spec fn safety_dir(k: int) -> (int, int) {
    if k == 0 {
        (1, 0)
    } else if k == 1 {
        (1, -1)
    } else if k == 2 {
        (0, -1)
    } else if k == 3 {
        (-1, -1)
    } else if k == 4 {
        (-1, 0)
    } else if k == 5 {
        (-1, 1)
    } else if k == 6 {
        (0, 1)
    } else if k == 7 {
        (1, 1)
    } else {
        (0, 0)
    }
}

/// What one offset contributes: one attacker (the first in scan order) and
/// its weight, or nothing when the square is off the board or unattacked.
pub open spec fn safety_dir_counts(b: BoardModel, sq: (usize, usize), by: i8, k: int) -> (
    int,
    int,
) {
    let r = sq.0 + safety_dir(k).0;
    let c = sq.1 + safety_dir(k).1;
    if !in_bounds(r, c) {
        (0, 0)
    } else {
        let fa = first_attacker_from(b, ((r as usize, c as usize)), by, 0);
        if fa < 64 {
            (1, attack_weight(b.pieces[fa]))
        } else {
            (0, 0)
        }
    }
}

/// Attacker count and summed weight over the first `n` offsets.
pub open spec fn safety_sums(b: BoardModel, sq: (usize, usize), by: i8, n: int) -> (int, int)
    decreases n,
{
    if n <= 0 {
        (0, 0)
    } else {
        let prev = safety_sums(b, sq, by, n - 1);
        let d = safety_dir_counts(b, sq, by, n - 1);
        (prev.0 + d.0, prev.1 + d.1)
    }
}

/// The safety score of a square for `side_to_check`: the number of its
/// surroundings the other side attacks, times the attackers' summed weight.
pub open spec fn spec_safety_score(b: BoardModel, sq: (usize, usize), side: i8) -> int {
    let s = safety_sums(b, sq, flip_side(side), 9);
    s.0 * s.1
}

/// The first piece of `by` attacking `target`, scanning row-major.
fn find_first_attacker(board: &Board, target: (usize, usize), by: i8) -> (r: Option<i8>)
    requires
        board_dims(board@),
        on_board(target),
        by == WHITE || by == BLACK,
    ensures
        ({
            let fa = first_attacker_from(board@, target, by, 0);
            if fa < 64 {
                r == Some(board@.pieces[fa])
            } else {
                r is None
            }
        }),
{
    let ghost b = board@;
    let mut i: usize = 0;
    while i < 64
        invariant
            board_dims(b),
            b == board@,
            on_board(target),
            by == WHITE || by == BLACK,
            i <= 64,
            first_attacker_from(b, target, by, 0) == first_attacker_from(b, target, by, i as int),
            forall|j: int|
                0 <= j < i ==> !(b.colours[j] == by && attacks_square(
                    b,
                    square_of(j),
                    #[trigger] b.pieces[j],
                    by,
                    target,
                )),
        decreases 64 - i,
    {
        let sq = (i / 8, i % 8);
        let colour = board.get_piece_colour(sq);
        if colour == by {
            let piece = board.get_piece(sq);
            if is_attacked_by_piece_from_square(board, sq, piece, target, by) {
                proof {
                    assert(first_attacker_from(b, target, by, i as int) == i);
                }
                return Some(piece);
            }
        }
        i = i + 1;
    }
    None
}

/// Scores how exposed a square is for `side_to_check`: for the square and
/// each of its neighbours, the first enemy piece attacking it adds its
/// weight; the result is the attacker count times the summed weight.
pub fn get_safety_score(board: &Board, square: (usize, usize), side_to_check: i8) -> (score: i32)
    requires
        board_dims(board@),
        on_board(square),
        side_to_check == WHITE || side_to_check == BLACK,
    ensures
        score == spec_safety_score(board@, square, side_to_check),
{
    let ghost b = board@;
    let opponent_colour = if side_to_check == WHITE {
        BLACK
    } else {
        WHITE
    };
    let mut number_of_attackers: i32 = 0;
    let mut safety_score: i32 = 0;
    let mut k: usize = 0;
    while k < 9
        invariant
            board_dims(b),
            b == board@,
            on_board(square),
            opponent_colour == flip_side(side_to_check),
            opponent_colour == WHITE || opponent_colour == BLACK,
            k <= 9,
            0 <= number_of_attackers <= k,
            0 <= safety_score <= 80 * k,
            (number_of_attackers as int, safety_score as int) == safety_sums(
                b,
                square,
                opponent_colour,
                k as int,
            ),
        decreases 9 - k,
    {
        let d: (i8, i8) = if k == 0 {
            (1, 0)
        } else if k == 1 {
            (1, -1)
        } else if k == 2 {
            (0, -1)
        } else if k == 3 {
            (-1, -1)
        } else if k == 4 {
            (-1, 0)
        } else if k == 5 {
            (-1, 1)
        } else if k == 6 {
            (0, 1)
        } else if k == 7 {
            (1, 1)
        } else {
            (0, 0)
        };
        proof {
            assert((d.0 as int, d.1 as int) == safety_dir(k as int));
        }
        let r = square.0 as i8 + d.0;
        let c = square.1 as i8 + d.1;
        if 0 <= r && r < 8 && 0 <= c && c < 8 {
            let target = (r as usize, c as usize);
            match find_first_attacker(board, target, opponent_colour) {
                Some(piece) => {
                    let weight: i32 = if piece == PAWN {
                        1
                    } else if piece == KNIGHT {
                        20
                    } else if piece == BISHOP {
                        20
                    } else if piece == ROOK {
                        40
                    } else if piece == QUEEN {
                        80
                    } else if piece == KING {
                        1
                    } else {
                        0
                    };
                    number_of_attackers = number_of_attackers + 1;
                    safety_score = safety_score + weight;
                },
                None => {},
            }
        }
        k = k + 1;
    }
    proof {
        assert(0 <= number_of_attackers * safety_score <= 6480) by (nonlinear_arith)
            requires
                0 <= number_of_attackers <= 9 && 0 <= safety_score <= 720,
        ;
    }
    number_of_attackers * safety_score
}

} // verus!
