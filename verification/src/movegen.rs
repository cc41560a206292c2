//! Attack generation and pseudo-legal move generation. Every function
//! carries an exact contract: the returned vector equals a spec-level
//! sequence defined square by square, and every generated move agrees with
//! the board it was generated from (`move_fits`).

use vstd::prelude::*;
use crate::board::{
    Board, BoardModel, board_dims, cells_wf, colour_at, coord_dist, flip_side, move_fits,
    on_board, piece_at, sq_idx,
};
use crate::constants::{PAWN, KNIGHT, BISHOP, ROOK, QUEEN, KING, WHITE, BLACK, EMPTY};
use crate::moves::Move;

verus! {

// ---------------------------------------------------------------------------
// Step attacks: pieces that move by a fixed table of offsets.
// ---------------------------------------------------------------------------

/// Forward direction of a pawn: white moves towards row 0.
pub open spec fn pawn_dir(side: i8) -> int {
    if side == WHITE {
        -1
    } else if side == BLACK {
        1
    } else {
        0
    }
}

pub open spec fn pawn_offs(side: i8) -> Seq<(int, int)> {
    seq![(pawn_dir(side), 1), (pawn_dir(side), -1)]
}

pub open spec fn knight_offs() -> Seq<(int, int)> {
    seq![(-2, -1), (-2, 1), (-1, -2), (-1, 2), (2, -1), (2, 1), (1, -2), (1, 2)]
}

pub open spec fn king_offs() -> Seq<(int, int)> {
    seq![(-1, 0), (1, 0), (0, -1), (0, 1), (-1, -1), (-1, 1), (1, -1), (1, 1)]
}

pub open spec fn in_bounds(r: int, c: int) -> bool {
    0 <= r < 8 && 0 <= c < 8
}

/// The squares reached by the first `n` offsets of `offs`, keeping those on
/// the board that do not hold a piece of `side`; with `excl_empty` (pawn
/// captures) empty squares are dropped as well.
pub open spec fn step_attacks(
    b: BoardModel,
    sq: (usize, usize),
    side: i8,
    offs: Seq<(int, int)>,
    excl_empty: bool,
    n: int,
) -> Seq<(usize, usize)>
    decreases n,
{
    if n <= 0 {
        Seq::empty()
    } else {
        let prev = step_attacks(b, sq, side, offs, excl_empty, n - 1);
        let d = offs[n - 1];
        let r = sq.0 + d.0;
        let c = sq.1 + d.1;
        if in_bounds(r, c) && b.colours[r * 8 + c] != side && (!excl_empty || b.colours[r * 8 + c]
            != EMPTY) {
            prev.push((r as usize, c as usize))
        } else {
            prev
        }
    }
}

/// Squares a pawn of `side` on `sq` attacks: its two forward diagonals,
/// restricted to squares held by the other side (en passant not included).
pub open spec fn spec_pawn_attacks(b: BoardModel, sq: (usize, usize), side: i8) -> Seq<
    (usize, usize),
> {
    step_attacks(b, sq, side, pawn_offs(side), true, 2)
}

pub open spec fn spec_knight_attacks(b: BoardModel, sq: (usize, usize), side: i8) -> Seq<
    (usize, usize),
> {
    step_attacks(b, sq, side, knight_offs(), false, 8)
}

pub open spec fn spec_king_attacks(b: BoardModel, sq: (usize, usize), side: i8) -> Seq<
    (usize, usize),
> {
    step_attacks(b, sq, side, king_offs(), false, 8)
}

/// Everything a step-attack sequence contains lies on the board, differs
/// from the piece's own square, and does not hold a piece of `side`.
pub proof fn lemma_step_attack_elems(
    b: BoardModel,
    sq: (usize, usize),
    side: i8,
    offs: Seq<(int, int)>,
    excl_empty: bool,
    n: int,
)
    requires
        on_board(sq),
        forall|k: int| 0 <= k < n ==> #[trigger] offs[k] != (0int, 0int),
    ensures
        forall|j: int|
            0 <= j < step_attacks(b, sq, side, offs, excl_empty, n).len() ==> {
                let t = #[trigger] step_attacks(b, sq, side, offs, excl_empty, n)[j];
                &&& on_board(t)
                &&& t != sq
                &&& b.colours[sq_idx(t)] != side
                &&& (excl_empty ==> b.colours[sq_idx(t)] != EMPTY)
            },
    decreases n,
{
    if n > 0 {
        lemma_step_attack_elems(b, sq, side, offs, excl_empty, n - 1);
        let prev = step_attacks(b, sq, side, offs, excl_empty, n - 1);
        let cur = step_attacks(b, sq, side, offs, excl_empty, n);
        assert forall|j: int| 0 <= j < cur.len() implies {
            let t = #[trigger] cur[j];
            &&& on_board(t)
            &&& t != sq
            &&& b.colours[sq_idx(t)] != side
            &&& (excl_empty ==> b.colours[sq_idx(t)] != EMPTY)
        } by {
            if j < prev.len() {
                assert(cur[j] == prev[j]);
                assert(on_board(prev[j]) && prev[j] != sq && b.colours[sq_idx(prev[j])] != side);
            } else {
                assert(offs[n - 1] != (0int, 0int));
            }
        }
    }
}

/// One offset of the pawn-attack table, as executable values.
fn pawn_offset_at(side: i8, k: usize) -> (d: (i8, i8))
    requires
        k < 2,
    ensures
        (d.0 as int, d.1 as int) == pawn_offs(side)[k as int],
{
    let dir: i8 = if side == WHITE {
        -1
    } else if side == BLACK {
        1
    } else {
        0
    };
    if k == 0 {
        (dir, 1)
    } else {
        (dir, -1)
    }
}

fn knight_offset_at(k: usize) -> (d: (i8, i8))
    requires
        k < 8,
    ensures
        (d.0 as int, d.1 as int) == knight_offs()[k as int],
{
    if k == 0 {
        (-2, -1)
    } else if k == 1 {
        (-2, 1)
    } else if k == 2 {
        (-1, -2)
    } else if k == 3 {
        (-1, 2)
    } else if k == 4 {
        (2, -1)
    } else if k == 5 {
        (2, 1)
    } else if k == 6 {
        (1, -2)
    } else {
        (1, 2)
    }
}

fn king_offset_at(k: usize) -> (d: (i8, i8))
    requires
        k < 8,
    ensures
        (d.0 as int, d.1 as int) == king_offs()[k as int],
{
    if k == 0 {
        (-1, 0)
    } else if k == 1 {
        (1, 0)
    } else if k == 2 {
        (0, -1)
    } else if k == 3 {
        (0, 1)
    } else if k == 4 {
        (-1, -1)
    } else if k == 5 {
        (-1, 1)
    } else if k == 6 {
        (1, -1)
    } else {
        (1, 1)
    }
}

/// Walks `n` offsets of a step table, collecting the attacked squares.
fn collect_step_attacks(
    square: (usize, usize),
    side: i8,
    board: &Board,
    offs: &Vec<(i8, i8)>,
    excl_empty: bool,
    ghost_offs: Ghost<Seq<(int, int)>>,
) -> (r: Vec<(usize, usize)>)
    requires
        board_dims(board@),
        on_board(square),
        offs@.len() == ghost_offs@.len(),
        forall|k: int|
            0 <= k < offs@.len() ==> ((#[trigger] offs@[k]).0 as int, offs@[k].1 as int)
                == ghost_offs@[k],
        forall|k: int|
            0 <= k < offs@.len() ==> -2 <= (#[trigger] offs@[k]).0 <= 2 && -2 <= offs@[k].1 <= 2,
    ensures
        r@ == step_attacks(board@, square, side, ghost_offs@, excl_empty, ghost_offs@.len() as int),
{
    let mut attacking_squares: Vec<(usize, usize)> = Vec::new();
    let mut k: usize = 0;
    while k < offs.len()
        invariant
            board_dims(board@),
            on_board(square),
            k <= offs@.len(),
            offs@.len() == ghost_offs@.len(),
            forall|j: int|
                0 <= j < offs@.len() ==> ((#[trigger] offs@[j]).0 as int, offs@[j].1 as int)
                    == ghost_offs@[j],
            forall|j: int|
                0 <= j < offs@.len() ==> -2 <= (#[trigger] offs@[j]).0 <= 2 && -2 <= offs@[j].1
                    <= 2,
            attacking_squares@ == step_attacks(
                board@,
                square,
                side,
                ghost_offs@,
                excl_empty,
                k as int,
            ),
        decreases offs@.len() - k,
    {
        let d = offs[k];
        let r = square.0 as i8 + d.0;
        let c = square.1 as i8 + d.1;
        if 0 <= r && r < 8 && 0 <= c && c < 8 {
            let target = (r as usize, c as usize);
            let colour = board.get_piece_colour(target);
            if colour != side && (!excl_empty || colour != EMPTY) {
                attacking_squares.push(target);
            }
        }
        k = k + 1;
    }
    attacking_squares
}

/// Squares a pawn attacks: the two forward diagonals holding enemy pieces.
/// En passant is handled by the pawn move generator, not here.
pub fn get_pawn_attacks(square: (usize, usize), side_to_generate_for: i8, board: &Board) -> (r:
    Vec<(usize, usize)>)
    requires
        board_dims(board@),
        on_board(square),
    ensures
        r@ == spec_pawn_attacks(board@, square, side_to_generate_for),
{
    let mut offs: Vec<(i8, i8)> = Vec::new();
    offs.push(pawn_offset_at(side_to_generate_for, 0));
    offs.push(pawn_offset_at(side_to_generate_for, 1));
    collect_step_attacks(
        square,
        side_to_generate_for,
        board,
        &offs,
        true,
        Ghost(pawn_offs(side_to_generate_for)),
    )
}

/// Squares a knight attacks: the eight jump targets on the board that do
/// not hold a piece of its own side.
pub fn get_knight_attacks(square: (usize, usize), side_to_generate_for: i8, board: &Board) -> (r:
    Vec<(usize, usize)>)
    requires
        board_dims(board@),
        on_board(square),
    ensures
        r@ == spec_knight_attacks(board@, square, side_to_generate_for),
{
    let mut offs: Vec<(i8, i8)> = Vec::new();
    let mut k: usize = 0;
    while k < 8
        invariant
            k <= 8,
            offs@.len() == k,
            forall|j: int|
                0 <= j < k ==> ((#[trigger] offs@[j]).0 as int, offs@[j].1 as int)
                    == knight_offs()[j],
            forall|j: int|
                0 <= j < k ==> -2 <= (#[trigger] offs@[j]).0 <= 2 && -2 <= offs@[j].1 <= 2,
        decreases 8 - k,
    {
        offs.push(knight_offset_at(k));
        k = k + 1;
    }
    collect_step_attacks(square, side_to_generate_for, board, &offs, false, Ghost(knight_offs()))
}

/// Squares a king attacks: the eight neighbours on the board that do not
/// hold a piece of its own side.
pub fn get_king_attacks(square: (usize, usize), side_to_generate_for: i8, board: &Board) -> (r: Vec<
    (usize, usize),
>)
    requires
        board_dims(board@),
        on_board(square),
    ensures
        r@ == spec_king_attacks(board@, square, side_to_generate_for),
{
    let mut offs: Vec<(i8, i8)> = Vec::new();
    let mut k: usize = 0;
    while k < 8
        invariant
            k <= 8,
            offs@.len() == k,
            forall|j: int|
                0 <= j < k ==> ((#[trigger] offs@[j]).0 as int, offs@[j].1 as int)
                    == king_offs()[j],
            forall|j: int|
                0 <= j < k ==> -2 <= (#[trigger] offs@[j]).0 <= 2 && -2 <= offs@[j].1 <= 2,
        decreases 8 - k,
    {
        offs.push(king_offset_at(k));
        k = k + 1;
    }
    collect_step_attacks(square, side_to_generate_for, board, &offs, false, Ghost(king_offs()))
}

// ---------------------------------------------------------------------------
// Sliding attacks: bishop, rook and queen rays.
// ---------------------------------------------------------------------------

/// The squares of one ray, from multiplier `k` outwards: the walk stops at
/// the board edge, before a friendly piece, and on (including) the first
/// enemy piece.
pub open spec fn ray_from(
    b: BoardModel,
    sq: (usize, usize),
    side: i8,
    d: (int, int),
    k: int,
) -> Seq<(usize, usize)>
    decreases 8 - k,
{
    if k < 1 || k >= 8 {
        Seq::empty()
    } else {
        let r = sq.0 + d.0 * k;
        let c = sq.1 + d.1 * k;
        if !in_bounds(r, c) {
            ray_from(b, sq, side, d, k + 1)
        } else if b.colours[r * 8 + c] == side {
            Seq::empty()
        } else if b.colours[r * 8 + c] != EMPTY {
            seq![(r as usize, c as usize)]
        } else {
            seq![(r as usize, c as usize)] + ray_from(b, sq, side, d, k + 1)
        }
    }
}

/// The concatenation of the rays for the first `n` directions in `dirs`.
pub open spec fn slide_attacks(
    b: BoardModel,
    sq: (usize, usize),
    side: i8,
    dirs: Seq<(int, int)>,
    n: int,
) -> Seq<(usize, usize)>
    decreases n,
{
    if n <= 0 {
        Seq::empty()
    } else {
        slide_attacks(b, sq, side, dirs, n - 1) + ray_from(b, sq, side, dirs[n - 1], 1)
    }
}

pub open spec fn bishop_dirs() -> Seq<(int, int)> {
    seq![(-1, -1), (-1, 1), (1, -1), (1, 1)]
}

pub open spec fn rook_dirs() -> Seq<(int, int)> {
    seq![(-1, 0), (1, 0), (0, -1), (0, 1)]
}

pub open spec fn queen_dirs() -> Seq<(int, int)> {
    seq![(-1, 0), (1, 0), (0, -1), (0, 1), (-1, -1), (-1, 1), (1, -1), (1, 1)]
}

pub open spec fn spec_bishop_attacks(b: BoardModel, sq: (usize, usize), side: i8) -> Seq<
    (usize, usize),
> {
    slide_attacks(b, sq, side, bishop_dirs(), 4)
}

pub open spec fn spec_rook_attacks(b: BoardModel, sq: (usize, usize), side: i8) -> Seq<
    (usize, usize),
> {
    slide_attacks(b, sq, side, rook_dirs(), 4)
}

pub open spec fn spec_queen_attacks(b: BoardModel, sq: (usize, usize), side: i8) -> Seq<
    (usize, usize),
> {
    slide_attacks(b, sq, side, queen_dirs(), 8)
}

/// Everything on a ray lies on the board, differs from the piece's own
/// square, and does not hold a piece of `side`; it also lies on the line
/// `sq + j * d` for some multiplier `j >= k`.
pub proof fn lemma_ray_elems(b: BoardModel, sq: (usize, usize), side: i8, d: (int, int), k: int)
    requires
        on_board(sq),
        1 <= k,
        -1 <= d.0 <= 1,
        -1 <= d.1 <= 1,
        d != (0int, 0int),
    ensures
        forall|j: int|
            0 <= j < ray_from(b, sq, side, d, k).len() ==> {
                let t = #[trigger] ray_from(b, sq, side, d, k)[j];
                &&& on_board(t)
                &&& t != sq
                &&& b.colours[sq_idx(t)] != side
                &&& exists|m: int|
                    k <= m < 8 && t.0 == sq.0 + #[trigger] (d.0 * m) && t.1 == sq.1 + d.1 * m
            },
    decreases 8 - k,
{
    if 1 <= k < 8 {
        lemma_ray_elems(b, sq, side, d, k + 1);
        let rest = ray_from(b, sq, side, d, k + 1);
        let cur = ray_from(b, sq, side, d, k);
        let r = sq.0 + d.0 * k;
        let c = sq.1 + d.1 * k;
        let t = ((r as usize, c as usize));
        if in_bounds(r, c) && b.colours[r * 8 + c] != side {
            assert(t.0 == sq.0 + d.0 * k && t.1 == sq.1 + d.1 * k);
            assert(t != sq) by {
                if d.0 == 0 {
                    assert(d.1 == 1 || d.1 == -1);
                    assert(d.1 * k != 0) by (nonlinear_arith)
                        requires
                            (d.1 == 1 || d.1 == -1) && k >= 1,
                    ;
                } else {
                    assert(d.0 * k != 0) by (nonlinear_arith)
                        requires
                            (d.0 == 1 || d.0 == -1) && k >= 1,
                    ;
                }
            }
        }
        assert forall|j: int| 0 <= j < cur.len() implies {
            let u = #[trigger] cur[j];
            &&& on_board(u)
            &&& u != sq
            &&& b.colours[sq_idx(u)] != side
            &&& exists|m: int|
                k <= m < 8 && u.0 == sq.0 + #[trigger] (d.0 * m) && u.1 == sq.1 + d.1 * m
        } by {
            if !in_bounds(r, c) {
                assert(cur[j] == rest[j]);
                assert(on_board(rest[j]) && rest[j] != sq);
                let m = choose|m: int|
                    k + 1 <= m < 8 && rest[j].0 == sq.0 + #[trigger] (d.0 * m) && rest[j].1 == sq.1
                        + d.1 * m;
                assert(k <= m < 8 && cur[j].0 == sq.0 + d.0 * m && cur[j].1 == sq.1 + d.1 * m);
            } else if b.colours[r * 8 + c] == side {
            } else if b.colours[r * 8 + c] != EMPTY {
                assert(cur[j] == t);
                assert(k <= k < 8 && t.0 == sq.0 + d.0 * k && t.1 == sq.1 + d.1 * k);
            } else {
                if j == 0 {
                    assert(cur[j] == t);
                    assert(k <= k < 8 && t.0 == sq.0 + d.0 * k && t.1 == sq.1 + d.1 * k);
                } else {
                    assert(cur[j] == rest[j - 1]);
                    assert(on_board(rest[j - 1]) && rest[j - 1] != sq);
                    let m = choose|m: int|
                        k + 1 <= m < 8 && rest[j - 1].0 == sq.0 + #[trigger] (d.0 * m) && rest[j
                            - 1].1 == sq.1 + d.1 * m;
                    assert(k <= m < 8 && cur[j].0 == sq.0 + d.0 * m && cur[j].1 == sq.1 + d.1
                        * m);
                }
            }
        }
    }
}

/// One ray of a sliding piece, collected by walking multipliers 1 to 7.
fn collect_ray(square: (usize, usize), side: i8, board: &Board, d: (i8, i8)) -> (r: Vec<
    (usize, usize),
>)
    requires
        board_dims(board@),
        on_board(square),
        -1 <= d.0 <= 1,
        -1 <= d.1 <= 1,
    ensures
        r@ == ray_from(board@, square, side, (d.0 as int, d.1 as int), 1),
{
    let ghost dd = (d.0 as int, d.1 as int);
    let mut acc: Vec<(usize, usize)> = Vec::new();
    let mut blocked = false;
    let mut k: usize = 1;
    while k < 8
        invariant
            board_dims(board@),
            on_board(square),
            -1 <= d.0 <= 1,
            -1 <= d.1 <= 1,
            dd == (d.0 as int, d.1 as int),
            1 <= k <= 8,
            blocked ==> acc@ == ray_from(board@, square, side, dd, 1),
            !blocked ==> acc@ + ray_from(board@, square, side, dd, k as int) == ray_from(
                board@,
                square,
                side,
                dd,
                1,
            ),
        decreases 8 - k,
    {
        if !blocked {
            let kk: i8 = k as i8;
            proof {
                assert((-7 <= (d.0 as int) * (kk as int) <= 7) && (-7 <= (d.1 as int) * (kk as int)
                    <= 7)) by (nonlinear_arith)
                    requires
                        -1 <= d.0 <= 1 && -1 <= d.1 <= 1 && 1 <= kk <= 7,
                ;
            }
            let r = square.0 as i8 + d.0 * kk;
            let c = square.1 as i8 + d.1 * kk;
            proof {
                assert(r as int == square.0 + dd.0 * k && c as int == square.1 + dd.1 * k)
                    by (nonlinear_arith)
                    requires
                        -1 <= d.0 <= 1 && -1 <= d.1 <= 1 && 1 <= kk <= 7 && k == kk as int
                            && square.0 < 8 && square.1 < 8 && r == square.0 as i8 + d.0 * kk && c
                            == square.1 as i8 + d.1 * kk && dd == (d.0 as int, d.1 as int) && -7
                            <= (d.0 as int) * (kk as int) <= 7 && -7 <= (d.1 as int) * (kk as int)
                            <= 7,
                ;
            }
            if 0 <= r && r < 8 && 0 <= c && c < 8 {
                let target = (r as usize, c as usize);
                let colour = board.get_piece_colour(target);
                if colour == side {
                    blocked = true;
                    proof {
                        assert(acc@ + ray_from(board@, square, side, dd, k as int) =~= acc@);
                    }
                } else if colour != EMPTY {
                    acc.push(target);
                    blocked = true;
                    proof {
                        assert(ray_from(board@, square, side, dd, k as int) =~= seq![target]);
                    }
                } else {
                    acc.push(target);
                    proof {
                        assert(ray_from(board@, square, side, dd, k as int) =~= seq![target]
                            + ray_from(board@, square, side, dd, k as int + 1));
                        assert((acc@ + ray_from(board@, square, side, dd, k as int + 1)) =~= (
                        acc@.drop_last() + ray_from(board@, square, side, dd, k as int)));
                    }
                }
            }
        }
        k = k + 1;
    }
    proof {
        if !blocked {
            assert(acc@ + ray_from(board@, square, side, dd, 8) =~= acc@);
        }
    }
    acc
}

/// Walks every direction of a slide table and concatenates the rays.
fn collect_slide_attacks(
    square: (usize, usize),
    side: i8,
    board: &Board,
    dirs: &Vec<(i8, i8)>,
    ghost_dirs: Ghost<Seq<(int, int)>>,
) -> (r: Vec<(usize, usize)>)
    requires
        board_dims(board@),
        on_board(square),
        dirs@.len() == ghost_dirs@.len(),
        forall|k: int|
            0 <= k < dirs@.len() ==> ((#[trigger] dirs@[k]).0 as int, dirs@[k].1 as int)
                == ghost_dirs@[k],
        forall|k: int|
            0 <= k < dirs@.len() ==> -1 <= (#[trigger] dirs@[k]).0 <= 1 && -1 <= dirs@[k].1 <= 1,
    ensures
        r@ == slide_attacks(board@, square, side, ghost_dirs@, ghost_dirs@.len() as int),
{
    let mut acc: Vec<(usize, usize)> = Vec::new();
    let mut k: usize = 0;
    while k < dirs.len()
        invariant
            board_dims(board@),
            on_board(square),
            k <= dirs@.len(),
            dirs@.len() == ghost_dirs@.len(),
            forall|j: int|
                0 <= j < dirs@.len() ==> ((#[trigger] dirs@[j]).0 as int, dirs@[j].1 as int)
                    == ghost_dirs@[j],
            forall|j: int|
                0 <= j < dirs@.len() ==> -1 <= (#[trigger] dirs@[j]).0 <= 1 && -1 <= dirs@[j].1
                    <= 1,
            acc@ == slide_attacks(board@, square, side, ghost_dirs@, k as int),
        decreases dirs@.len() - k,
    {
        let d = dirs[k];
        let mut ray = collect_ray(square, side, board, d);
        acc.append(&mut ray);
        k = k + 1;
    }
    acc
}

/// Squares a bishop attacks: the four diagonal rays.
pub fn get_bishop_attacks(square: (usize, usize), side_to_generate_for: i8, board: &Board) -> (r:
    Vec<(usize, usize)>)
    requires
        board_dims(board@),
        on_board(square),
    ensures
        r@ == spec_bishop_attacks(board@, square, side_to_generate_for),
{
    let mut dirs: Vec<(i8, i8)> = Vec::new();
    dirs.push((-1, -1));
    dirs.push((-1, 1));
    dirs.push((1, -1));
    dirs.push((1, 1));
    proof {
        assert(forall|k: int|
            0 <= k < 4 ==> ((#[trigger] dirs@[k]).0 as int, dirs@[k].1 as int)
                == bishop_dirs()[k]);
    }
    collect_slide_attacks(square, side_to_generate_for, board, &dirs, Ghost(bishop_dirs()))
}

/// Squares a rook attacks: the four straight rays.
pub fn get_rook_attacks(square: (usize, usize), side_to_generate_for: i8, board: &Board) -> (r: Vec<
    (usize, usize),
>)
    requires
        board_dims(board@),
        on_board(square),
    ensures
        r@ == spec_rook_attacks(board@, square, side_to_generate_for),
{
    let mut dirs: Vec<(i8, i8)> = Vec::new();
    dirs.push((-1, 0));
    dirs.push((1, 0));
    dirs.push((0, -1));
    dirs.push((0, 1));
    proof {
        assert(forall|k: int|
            0 <= k < 4 ==> ((#[trigger] dirs@[k]).0 as int, dirs@[k].1 as int) == rook_dirs()[k]);
    }
    collect_slide_attacks(square, side_to_generate_for, board, &dirs, Ghost(rook_dirs()))
}

/// Squares a queen attacks: all eight rays.
pub fn get_queen_moves(square: (usize, usize), side_to_generate_for: i8, board: &Board) -> (r: Vec<
    (usize, usize),
>)
    requires
        board_dims(board@),
        on_board(square),
    ensures
        r@ == spec_queen_attacks(board@, square, side_to_generate_for),
{
    let mut dirs: Vec<(i8, i8)> = Vec::new();
    dirs.push((-1, 0));
    dirs.push((1, 0));
    dirs.push((0, -1));
    dirs.push((0, 1));
    dirs.push((-1, -1));
    dirs.push((-1, 1));
    dirs.push((1, -1));
    dirs.push((1, 1));
    proof {
        assert(forall|k: int|
            0 <= k < 8 ==> ((#[trigger] dirs@[k]).0 as int, dirs@[k].1 as int) == queen_dirs()[k]);
    }
    collect_slide_attacks(square, side_to_generate_for, board, &dirs, Ghost(queen_dirs()))
}

// ---------------------------------------------------------------------------
// Move construction.
// ---------------------------------------------------------------------------

/// A move value assembled from its parts; unlisted engine fields (scores,
/// legality flag) start cleared.
pub open spec fn mk_move(
    from: (usize, usize),
    fp: i8,
    fc: i8,
    to: (usize, usize),
    tp: i8,
    tc: i8,
    promo: Option<i8>,
    dbl: bool,
    castle: Option<((usize, usize), (usize, usize))>,
    inter: Option<(usize, usize)>,
) -> Move {
    Move {
        from,
        from_piece: fp,
        from_colour: fc,
        to,
        to_piece: tp,
        to_colour: tc,
        promotion_to: promo,
        en_passant: dbl,
        castle_from_to_square: castle,
        castling_intermediary_square: inter,
        sort_score: 0,
        search_score: 0,
        illegal_move: false,
    }
}

pub(crate) fn build_move(
    from: (usize, usize),
    fp: i8,
    fc: i8,
    to: (usize, usize),
    tp: i8,
    tc: i8,
    promo: Option<i8>,
    dbl: bool,
    castle: Option<((usize, usize), (usize, usize))>,
    inter: Option<(usize, usize)>,
) -> (m: Move)
    ensures
        m == mk_move(from, fp, fc, to, tp, tc, promo, dbl, castle, inter),
{
    Move {
        from,
        from_piece: fp,
        from_colour: fc,
        to,
        to_piece: tp,
        to_colour: tc,
        promotion_to: promo,
        en_passant: dbl,
        castle_from_to_square: castle,
        castling_intermediary_square: inter,
        sort_score: 0,
        search_score: 0,
        illegal_move: false,
    }
}

/// One plain move (no promotion, no flags) to each of the first `n` attack
/// squares, with the destination's contents read off the board.
pub open spec fn attack_moves_upto(
    b: BoardModel,
    from: (usize, usize),
    piece: i8,
    side: i8,
    atts: Seq<(usize, usize)>,
    n: int,
) -> Seq<Move>
    decreases n,
{
    if n <= 0 {
        Seq::empty()
    } else {
        let t = atts[n - 1];
        attack_moves_upto(b, from, piece, side, atts, n - 1).push(
            mk_move(
                from,
                piece,
                side,
                t,
                b.pieces[sq_idx(t)],
                b.colours[sq_idx(t)],
                None,
                false,
                None,
                None,
            ),
        )
    }
}

/// Everything on any ray of a slide table lies on the board, differs from
/// the piece's own square, and does not hold a piece of `side`.
pub proof fn lemma_slide_attack_elems(
    b: BoardModel,
    sq: (usize, usize),
    side: i8,
    dirs: Seq<(int, int)>,
    n: int,
)
    requires
        on_board(sq),
        forall|k: int|
            0 <= k < n ==> -1 <= (#[trigger] dirs[k]).0 <= 1 && -1 <= dirs[k].1 <= 1 && dirs[k]
                != (0int, 0int),
    ensures
        forall|j: int|
            0 <= j < slide_attacks(b, sq, side, dirs, n).len() ==> {
                let t = #[trigger] slide_attacks(b, sq, side, dirs, n)[j];
                &&& on_board(t)
                &&& t != sq
                &&& b.colours[sq_idx(t)] != side
            },
    decreases n,
{
    if n > 0 {
        lemma_slide_attack_elems(b, sq, side, dirs, n - 1);
        lemma_ray_elems(b, sq, side, dirs[n - 1], 1);
        let prev = slide_attacks(b, sq, side, dirs, n - 1);
        let ray = ray_from(b, sq, side, dirs[n - 1], 1);
        let cur = slide_attacks(b, sq, side, dirs, n);
        assert forall|j: int| 0 <= j < cur.len() implies {
            let t = #[trigger] cur[j];
            &&& on_board(t)
            &&& t != sq
            &&& b.colours[sq_idx(t)] != side
        } by {
            if j < prev.len() {
                assert(cur[j] == prev[j]);
                assert(on_board(prev[j]) && prev[j] != sq && b.colours[sq_idx(prev[j])] != side);
            } else {
                assert(cur[j] == ray[j - prev.len()]);
                assert(on_board(ray[j - prev.len()]) && ray[j - prev.len()] != sq && b.colours[
                sq_idx(ray[j - prev.len()])] != side);
            }
        }
    }
}

/// Builds one plain move per attack square. Shared by the knight, bishop,
/// rook, queen and the king's step moves.
fn moves_from_attack_list(
    board: &Board,
    from: (usize, usize),
    piece: i8,
    side: i8,
    atts: &Vec<(usize, usize)>,
) -> (r: Vec<Move>)
    requires
        board_dims(board@),
        cells_wf(board@),
        on_board(from),
        KNIGHT <= piece <= KING,
        piece_at(board@, from) == piece,
        colour_at(board@, from) == side,
        forall|j: int|
            0 <= j < atts@.len() ==> {
                let t = #[trigger] atts@[j];
                &&& on_board(t)
                &&& t != from
                &&& board@.colours[sq_idx(t)] != side
            },
    ensures
        r@ == attack_moves_upto(board@, from, piece, side, atts@, atts@.len() as int),
        (side == WHITE || side == BLACK) ==> forall|i: int|
            0 <= i < r@.len() ==> move_fits(board@, side, #[trigger] r@[i]),
{
    let mut moves: Vec<Move> = Vec::new();
    let mut i: usize = 0;
    while i < atts.len()
        invariant
            board_dims(board@),
            cells_wf(board@),
            on_board(from),
            KNIGHT <= piece <= KING,
            piece_at(board@, from) == piece,
            colour_at(board@, from) == side,
            forall|j: int|
                0 <= j < atts@.len() ==> {
                    let t = #[trigger] atts@[j];
                    &&& on_board(t)
                    &&& t != from
                    &&& board@.colours[sq_idx(t)] != side
                },
            i <= atts@.len(),
            moves@ == attack_moves_upto(board@, from, piece, side, atts@, i as int),
            (side == WHITE || side == BLACK) ==> forall|j: int|
                0 <= j < moves@.len() ==> move_fits(board@, side, #[trigger] moves@[j]),
        decreases atts@.len() - i,
    {
        let t = atts[i];
        let tp = board.get_piece(t);
        let tc = board.get_piece_colour(t);
        let m = build_move(from, piece, side, t, tp, tc, None, false, None, None);
        moves.push(m);
        i = i + 1;
    }
    moves
}

/// The knight's pseudo-legal moves: one per attacked square.
pub fn generate_knight_moves(square: (usize, usize), side_to_generate_for: i8, board: &Board) -> (r:
    Vec<Move>)
    requires
        board_dims(board@),
        cells_wf(board@),
        on_board(square),
        piece_at(board@, square) == KNIGHT,
        colour_at(board@, square) == side_to_generate_for,
    ensures
        r@ == spec_knight_moves(board@, square, side_to_generate_for),
        (side_to_generate_for == WHITE || side_to_generate_for == BLACK) ==> forall|i: int|
            0 <= i < r@.len() ==> move_fits(board@, side_to_generate_for, #[trigger] r@[i]),
{
    let attack_squares = get_knight_attacks(square, side_to_generate_for, board);
    proof {
        lemma_step_attack_elems(board@, square, side_to_generate_for, knight_offs(), false, 8);
    }
    moves_from_attack_list(board, square, KNIGHT, side_to_generate_for, &attack_squares)
}

pub open spec fn spec_knight_moves(b: BoardModel, sq: (usize, usize), side: i8) -> Seq<Move> {
    attack_moves_upto(
        b,
        sq,
        KNIGHT,
        side,
        spec_knight_attacks(b, sq, side),
        spec_knight_attacks(b, sq, side).len() as int,
    )
}

/// The bishop's pseudo-legal moves: one per square on its diagonals.
pub fn generate_bishop_moves(square: (usize, usize), side_to_generate_for: i8, board: &Board) -> (r:
    Vec<Move>)
    requires
        board_dims(board@),
        cells_wf(board@),
        on_board(square),
        piece_at(board@, square) == BISHOP,
        colour_at(board@, square) == side_to_generate_for,
    ensures
        r@ == spec_bishop_moves(board@, square, side_to_generate_for),
        (side_to_generate_for == WHITE || side_to_generate_for == BLACK) ==> forall|i: int|
            0 <= i < r@.len() ==> move_fits(board@, side_to_generate_for, #[trigger] r@[i]),
{
    let attack_squares = get_bishop_attacks(square, side_to_generate_for, board);
    proof {
        lemma_slide_attack_elems(board@, square, side_to_generate_for, bishop_dirs(), 4);
    }
    moves_from_attack_list(board, square, BISHOP, side_to_generate_for, &attack_squares)
}

pub open spec fn spec_bishop_moves(b: BoardModel, sq: (usize, usize), side: i8) -> Seq<Move> {
    attack_moves_upto(
        b,
        sq,
        BISHOP,
        side,
        spec_bishop_attacks(b, sq, side),
        spec_bishop_attacks(b, sq, side).len() as int,
    )
}

/// The rook's pseudo-legal moves: one per square on its files and ranks.
pub fn generate_rook_moves(square: (usize, usize), side_to_generate_for: i8, board: &Board) -> (r:
    Vec<Move>)
    requires
        board_dims(board@),
        cells_wf(board@),
        on_board(square),
        piece_at(board@, square) == ROOK,
        colour_at(board@, square) == side_to_generate_for,
    ensures
        r@ == spec_rook_moves(board@, square, side_to_generate_for),
        (side_to_generate_for == WHITE || side_to_generate_for == BLACK) ==> forall|i: int|
            0 <= i < r@.len() ==> move_fits(board@, side_to_generate_for, #[trigger] r@[i]),
{
    let attack_squares = get_rook_attacks(square, side_to_generate_for, board);
    proof {
        lemma_slide_attack_elems(board@, square, side_to_generate_for, rook_dirs(), 4);
    }
    moves_from_attack_list(board, square, ROOK, side_to_generate_for, &attack_squares)
}

pub open spec fn spec_rook_moves(b: BoardModel, sq: (usize, usize), side: i8) -> Seq<Move> {
    attack_moves_upto(
        b,
        sq,
        ROOK,
        side,
        spec_rook_attacks(b, sq, side),
        spec_rook_attacks(b, sq, side).len() as int,
    )
}

/// The queen's pseudo-legal moves: one per square on all eight rays.
pub fn generate_queen_moves(square: (usize, usize), side_to_generate_for: i8, board: &Board) -> (r:
    Vec<Move>)
    requires
        board_dims(board@),
        cells_wf(board@),
        on_board(square),
        piece_at(board@, square) == QUEEN,
        colour_at(board@, square) == side_to_generate_for,
    ensures
        r@ == spec_queen_moves(board@, square, side_to_generate_for),
        (side_to_generate_for == WHITE || side_to_generate_for == BLACK) ==> forall|i: int|
            0 <= i < r@.len() ==> move_fits(board@, side_to_generate_for, #[trigger] r@[i]),
{
    let attack_squares = get_queen_moves(square, side_to_generate_for, board);
    proof {
        lemma_slide_attack_elems(board@, square, side_to_generate_for, queen_dirs(), 8);
    }
    moves_from_attack_list(board, square, QUEEN, side_to_generate_for, &attack_squares)
}

pub open spec fn spec_queen_moves(b: BoardModel, sq: (usize, usize), side: i8) -> Seq<Move> {
    attack_moves_upto(
        b,
        sq,
        QUEEN,
        side,
        spec_queen_attacks(b, sq, side),
        spec_queen_attacks(b, sq, side).len() as int,
    )
}

// ---------------------------------------------------------------------------
// Pawn moves.
// ---------------------------------------------------------------------------

/// The moves a pawn makes towards one target square: four promotion moves on
/// the promotion rank, one plain move otherwise.
pub open spec fn pawn_target_moves(
    from: (usize, usize),
    side: i8,
    to: (usize, usize),
    tp: i8,
    tc: i8,
    promo: bool,
) -> Seq<Move> {
    if promo {
        seq![
            mk_move(from, PAWN, side, to, tp, tc, Some(KNIGHT), false, None, None),
            mk_move(from, PAWN, side, to, tp, tc, Some(BISHOP), false, None, None),
            mk_move(from, PAWN, side, to, tp, tc, Some(ROOK), false, None, None),
            mk_move(from, PAWN, side, to, tp, tc, Some(QUEEN), false, None, None),
        ]
    } else {
        seq![mk_move(from, PAWN, side, to, tp, tc, None, false, None, None)]
    }
}

/// Capture moves towards the first `n` attacked squares.
pub open spec fn pawn_capture_moves(
    b: BoardModel,
    from: (usize, usize),
    side: i8,
    atts: Seq<(usize, usize)>,
    promo: bool,
    n: int,
) -> Seq<Move>
    decreases n,
{
    if n <= 0 {
        Seq::empty()
    } else {
        let t = atts[n - 1];
        pawn_capture_moves(b, from, side, atts, promo, n - 1) + pawn_target_moves(
            from,
            side,
            t,
            b.pieces[sq_idx(t)],
            b.colours[sq_idx(t)],
            promo,
        )
    }
}

/// All pseudo-legal pawn moves from `sq`: the single push (promoting on the
/// promotion rank), diagonal captures, the double push from the starting
/// rank, and the en-passant capture when the recorded pawn stands beside.
pub open spec fn spec_pawn_moves(b: BoardModel, sq: (usize, usize), side: i8) -> Seq<Move> {
    let dir = pawn_dir(side);
    let start_row: int = if side == WHITE {
        6
    } else {
        1
    };
    let promo_row: int = if side == WHITE {
        1
    } else {
        6
    };
    let promo = sq.0 == promo_row;
    let fr = sq.0 + dir;
    let front_ok = 0 <= fr < 8;
    let blocked = !front_ok || b.pieces[fr * 8 + sq.1] != EMPTY;
    let push_part = if !blocked {
        pawn_target_moves(sq, side, ((fr as usize, sq.1)), b.pieces[fr * 8 + sq.1], EMPTY, promo)
    } else {
        Seq::empty()
    };
    let atts = spec_pawn_attacks(b, sq, side);
    let caps = pawn_capture_moves(b, sq, side, atts, promo, atts.len() as int);
    let dbl_part = if sq.0 == start_row {
        let jr = if dir < 0 {
            sq.0 - 2
        } else {
            sq.0 + 2
        };
        if b.pieces[jr * 8 + sq.1] == EMPTY && !blocked {
            seq![
                mk_move(
                    sq,
                    PAWN,
                    side,
                    ((jr as usize, sq.1)),
                    b.pieces[jr * 8 + sq.1],
                    EMPTY,
                    None,
                    true,
                    None,
                    None,
                ),
            ]
        } else {
            Seq::empty()
        }
    } else {
        Seq::empty()
    };
    let ep_part = if b.ep is Some {
        let e = b.ep->Some_0;
        if e.0 == sq.0 && e.1 < 8 && coord_dist(e.1, sq.1) == 1 && front_ok && b.pieces[sq_idx(e)]
            == PAWN && b.colours[sq_idx(e)] == flip_side(side) && b.pieces[fr * 8 + e.1] == EMPTY {
            seq![
                mk_move(
                    sq,
                    PAWN,
                    side,
                    ((fr as usize, e.1)),
                    b.pieces[fr * 8 + e.1],
                    b.colours[fr * 8 + e.1],
                    None,
                    false,
                    None,
                    None,
                ),
            ]
        } else {
            Seq::empty()
        }
    } else {
        Seq::empty()
    };
    push_part + caps + dbl_part + ep_part
}

/// Appends the pawn moves for one target square.
fn push_pawn_target(
    moves: &mut Vec<Move>,
    from: (usize, usize),
    side: i8,
    to: (usize, usize),
    tp: i8,
    tc: i8,
    promo: bool,
)
    ensures
        final(moves)@ == old(moves)@ + pawn_target_moves(from, side, to, tp, tc, promo),
{
    if promo {
        moves.push(build_move(from, PAWN, side, to, tp, tc, Some(KNIGHT), false, None, None));
        moves.push(build_move(from, PAWN, side, to, tp, tc, Some(BISHOP), false, None, None));
        moves.push(build_move(from, PAWN, side, to, tp, tc, Some(ROOK), false, None, None));
        moves.push(build_move(from, PAWN, side, to, tp, tc, Some(QUEEN), false, None, None));
    } else {
        moves.push(build_move(from, PAWN, side, to, tp, tc, None, false, None, None));
    }
    proof {
        assert(final(moves)@ =~= old(moves)@ + pawn_target_moves(from, side, to, tp, tc, promo));
    }
}

/// The pawn's pseudo-legal moves: pushes, captures, double push, en passant.
#[verifier::rlimit(100)]
pub fn generate_pawn_moves(square: (usize, usize), side_to_generate_for: i8, board: &Board) -> (r:
    Vec<Move>)
    requires
        board_dims(board@),
        cells_wf(board@),
        on_board(square),
        piece_at(board@, square) == PAWN,
        colour_at(board@, square) == side_to_generate_for,
    ensures
        r@ == spec_pawn_moves(board@, square, side_to_generate_for),
        (side_to_generate_for == WHITE || side_to_generate_for == BLACK) ==> forall|i: int|
            0 <= i < r@.len() ==> move_fits(board@, side_to_generate_for, #[trigger] r@[i]),
{
    let side = side_to_generate_for;
    let mut moves: Vec<Move> = Vec::new();
    let dir: i8 = if side == WHITE {
        -1
    } else if side == BLACK {
        1
    } else {
        0
    };
    let starting_row: usize = if side == WHITE {
        6
    } else {
        1
    };
    let promotion_row: usize = if side == WHITE {
        1
    } else {
        6
    };
    let promo = square.0 == promotion_row;
    let fr_i: i8 = square.0 as i8 + dir;
    let front_ok = 0 <= fr_i && fr_i < 8;
    let mut blocked = true;
    let mut front_piece: i8 = EMPTY;
    if front_ok {
        front_piece = board.get_piece((fr_i as usize, square.1));
        blocked = front_piece != EMPTY;
    }
    // Single push, promoting on the promotion rank.
    if !blocked {
        push_pawn_target(&mut moves, square, side, (fr_i as usize, square.1), front_piece, EMPTY, promo);
    }
    let ghost b = board@;
    let ghost push_part = moves@;
    // Diagonal captures.
    let attack_squares = get_pawn_attacks(square, side, board);
    proof {
        assert(forall|k: int| 0 <= k < 2 ==> #[trigger] pawn_offs(side)[k] != (0int, 0int));
        lemma_step_attack_elems(b, square, side, pawn_offs(side), true, 2);
    }
    let mut i: usize = 0;
    while i < attack_squares.len()
        invariant
            board_dims(b),
            cells_wf(b),
            on_board(square),
            piece_at(b, square) == PAWN,
            colour_at(b, square) == side,
            b == board@,
            i <= attack_squares@.len(),
            attack_squares@ == spec_pawn_attacks(b, square, side),
            forall|j: int|
                0 <= j < attack_squares@.len() ==> {
                    let t = #[trigger] attack_squares@[j];
                    &&& on_board(t)
                    &&& t != square
                    &&& b.colours[sq_idx(t)] != side
                    &&& b.colours[sq_idx(t)] != EMPTY
                },
            moves@ == push_part + pawn_capture_moves(
                b,
                square,
                side,
                attack_squares@,
                promo,
                i as int,
            ),
            promo == (square.0 == (if side == WHITE {
                1int
            } else {
                6int
            })),
        decreases attack_squares@.len() - i,
    {
        let t = attack_squares[i];
        let tp = board.get_piece(t);
        let tc = board.get_piece_colour(t);
        push_pawn_target(&mut moves, square, side, t, tp, tc, promo);
        proof {
            assert(moves@ =~= push_part + pawn_capture_moves(
                b,
                square,
                side,
                attack_squares@,
                promo,
                i + 1,
            ));
        }
        i = i + 1;
    }
    let ghost caps_done = moves@;
    // Double push from the starting rank.
    if square.0 == starting_row {
        let jr: usize = if dir < 0 {
            square.0 - 2
        } else {
            square.0 + 2
        };
        let jump_piece = board.get_piece((jr, square.1));
        if jump_piece == EMPTY && !blocked {
            moves.push(
                build_move(
                    square,
                    PAWN,
                    side,
                    (jr, square.1),
                    jump_piece,
                    EMPTY,
                    None,
                    true,
                    None,
                    None,
                ),
            );
        }
    }
    let ghost dbl_done = moves@;
    // En passant: the recorded pawn stands beside this one.
    match board.en_passant_location {
        Some(e) => {
            if e.0 == square.0 && e.1 < 8 {
                let dist = if e.1 >= square.1 {
                    e.1 - square.1
                } else {
                    square.1 - e.1
                };
                if dist == 1 && front_ok {
                    let ep_p = board.get_piece(e);
                    let ep_c = board.get_piece_colour(e);
                    let enemy = if side == WHITE {
                        BLACK
                    } else {
                        WHITE
                    };
                    if ep_p == PAWN && ep_c == enemy {
                        let to = (fr_i as usize, e.1);
                        let tp = board.get_piece(to);
                        let tc = board.get_piece_colour(to);
                        if tp == EMPTY {
                            moves.push(
                                build_move(square, PAWN, side, to, tp, tc, None, false, None, None),
                            );
                        }
                    }
                }
            }
        },
        None => {},
    }
    proof {
        assert(moves@ =~= spec_pawn_moves(b, square, side));
        if side == WHITE || side == BLACK {
            lemma_pawn_moves_fit(b, square, side);
        }
    }
    moves
}

/// Every pawn move the generator emits fits the board.
proof fn lemma_pawn_moves_fit(b: BoardModel, sq: (usize, usize), side: i8)
    requires
        board_dims(b),
        cells_wf(b),
        on_board(sq),
        piece_at(b, sq) == PAWN,
        colour_at(b, sq) == side,
        side == WHITE || side == BLACK,
    ensures
        forall|j: int|
            0 <= j < spec_pawn_moves(b, sq, side).len() ==> move_fits(
                b,
                side,
                #[trigger] spec_pawn_moves(b, sq, side)[j],
            ),
{
    let atts = spec_pawn_attacks(b, sq, side);
    assert(forall|k: int| 0 <= k < 2 ==> #[trigger] pawn_offs(side)[k] != (0int, 0int));
    lemma_step_attack_elems(b, sq, side, pawn_offs(side), true, 2);
    assert forall|j: int|
        0 <= j < atts.len() implies {
            let t = #[trigger] atts[j];
            &&& on_board(t)
            &&& t != sq
            &&& b.colours[sq_idx(t)] != side
            &&& b.colours[sq_idx(t)] != EMPTY
        } by {
        assert(on_board(atts[j]) && atts[j] != sq && b.colours[sq_idx(atts[j])] != side);
    }
    let promo_row: int = if side == WHITE {
        1int
    } else {
        6int
    };
    lemma_pawn_capture_fits(b, sq, side, atts, sq.0 == promo_row, atts.len() as int);
    let whole = spec_pawn_moves(b, sq, side);
    let caps = pawn_capture_moves(b, sq, side, atts, sq.0 == promo_row, atts.len() as int);
    assert forall|j: int| 0 <= j < whole.len() implies move_fits(b, side, #[trigger] whole[j]) by {
        let dir = pawn_dir(side);
        let fr = sq.0 + dir;
        let blocked = !(0 <= fr < 8) || b.pieces[fr * 8 + sq.1] != EMPTY;
        let push_part = if !blocked {
            pawn_target_moves(
                sq,
                side,
                ((fr as usize, sq.1)),
                b.pieces[fr * 8 + sq.1],
                EMPTY,
                sq.0 == promo_row,
            )
        } else {
            Seq::<Move>::empty()
        };
        if j < push_part.len() {
            assert(whole[j] == push_part[j]);
        } else if j < push_part.len() + caps.len() {
            assert(whole[j] == caps[j - push_part.len()]);
            assert(move_fits(b, side, caps[j - push_part.len()]));
        }
    }
}

/// Every pawn capture move fits the board: its target is one of the attack
/// squares, which hold enemy pieces.
proof fn lemma_pawn_capture_fits(
    b: BoardModel,
    sq: (usize, usize),
    side: i8,
    atts: Seq<(usize, usize)>,
    promo: bool,
    n: int,
)
    requires
        board_dims(b),
        cells_wf(b),
        on_board(sq),
        piece_at(b, sq) == PAWN,
        colour_at(b, sq) == side,
        side == WHITE || side == BLACK,
        forall|j: int|
            0 <= j < atts.len() ==> {
                let t = #[trigger] atts[j];
                &&& on_board(t)
                &&& t != sq
                &&& b.colours[sq_idx(t)] != side
                &&& b.colours[sq_idx(t)] != EMPTY
            },
        n <= atts.len(),
    ensures
        forall|j: int|
            0 <= j < pawn_capture_moves(b, sq, side, atts, promo, n).len() ==> move_fits(
                b,
                side,
                #[trigger] pawn_capture_moves(b, sq, side, atts, promo, n)[j],
            ),
    decreases n,
{
    if n > 0 {
        lemma_pawn_capture_fits(b, sq, side, atts, promo, n - 1);
        let prev = pawn_capture_moves(b, sq, side, atts, promo, n - 1);
        let cur = pawn_capture_moves(b, sq, side, atts, promo, n);
        let t = atts[n - 1];
        assert forall|j: int| 0 <= j < cur.len() implies move_fits(b, side, #[trigger] cur[j]) by {
            if j < prev.len() {
                assert(cur[j] == prev[j]);
                assert(move_fits(b, side, prev[j]));
            } else {
                assert(on_board(t) && t != sq && b.colours[sq_idx(t)] != side && b.colours[sq_idx(
                    t,
                )] != EMPTY);
                assert(b.pieces[sq_idx(t)] != EMPTY);
                assert(cur[j] == pawn_target_moves(
                    sq,
                    side,
                    t,
                    b.pieces[sq_idx(t)],
                    b.colours[sq_idx(t)],
                    promo,
                )[j - prev.len()]);
            }
        }
    }
}

// ---------------------------------------------------------------------------
// King moves, castling included.
// ---------------------------------------------------------------------------

/// White may castle queenside: the right is held, b1/c1/d1 are empty, and
/// the rook stands on a1.
pub open spec fn white_qs_ready(b: BoardModel) -> bool {
    &&& b.castle_a1
    &&& b.pieces[57] == EMPTY
    &&& b.pieces[58] == EMPTY
    &&& b.pieces[59] == EMPTY
    &&& b.pieces[56] == ROOK
    &&& b.colours[56] == WHITE
}

/// White may castle kingside: the right is held, f1/g1 are empty, and the
/// rook stands on h1.
pub open spec fn white_ks_ready(b: BoardModel) -> bool {
    &&& b.castle_h1
    &&& b.pieces[61] == EMPTY
    &&& b.pieces[62] == EMPTY
    &&& b.pieces[63] == ROOK
    &&& b.colours[63] == WHITE
}

/// Black may castle queenside: the right is held, b8/c8/d8 are empty, and
/// the rook stands on a8.
pub open spec fn black_qs_ready(b: BoardModel) -> bool {
    &&& b.castle_a8
    &&& b.pieces[1] == EMPTY
    &&& b.pieces[2] == EMPTY
    &&& b.pieces[3] == EMPTY
    &&& b.pieces[0] == ROOK
    &&& b.colours[0] == BLACK
}

/// Black may castle kingside: the right is held, f8/g8 are empty, and the
/// rook stands on h8.
pub open spec fn black_ks_ready(b: BoardModel) -> bool {
    &&& b.castle_h8
    &&& b.pieces[5] == EMPTY
    &&& b.pieces[6] == EMPTY
    &&& b.pieces[7] == ROOK
    &&& b.colours[7] == BLACK
}

pub open spec fn wq_castle_move() -> Move {
    mk_move(
        (7, 4),
        KING,
        WHITE,
        (7, 2),
        EMPTY,
        EMPTY,
        None,
        false,
        Some(((7, 0), (7, 3))),
        Some((7, 3)),
    )
}

pub open spec fn wk_castle_move() -> Move {
    mk_move(
        (7, 4),
        KING,
        WHITE,
        (7, 6),
        EMPTY,
        EMPTY,
        None,
        false,
        Some(((7, 7), (7, 5))),
        Some((7, 5)),
    )
}

pub open spec fn bq_castle_move() -> Move {
    mk_move(
        (0, 4),
        KING,
        BLACK,
        (0, 2),
        EMPTY,
        EMPTY,
        None,
        false,
        Some(((0, 0), (0, 3))),
        Some((0, 3)),
    )
}

pub open spec fn bk_castle_move() -> Move {
    mk_move(
        (0, 4),
        KING,
        BLACK,
        (0, 6),
        EMPTY,
        EMPTY,
        None,
        false,
        Some(((0, 7), (0, 5))),
        Some((0, 5)),
    )
}

/// The castling moves available to `side` with its king on `sq`: none when
/// the king is in check or off its starting square; otherwise queenside and
/// kingside, each gated on its right, the empty path, and the rook.
pub open spec fn spec_castle_moves(b: BoardModel, sq: (usize, usize), side: i8, in_check: bool) -> Seq<Move> {
    if in_check {
        Seq::empty()
    } else {
        let wq = if side == WHITE && sq == (7usize, 4usize) && white_qs_ready(b) {
            seq![wq_castle_move()]
        } else {
            Seq::empty()
        };
        let wk = if side == WHITE && sq == (7usize, 4usize) && white_ks_ready(b) {
            seq![wk_castle_move()]
        } else {
            Seq::empty()
        };
        let bq = if side == BLACK && sq == (0usize, 4usize) && black_qs_ready(b) {
            seq![bq_castle_move()]
        } else {
            Seq::empty()
        };
        let bk = if side == BLACK && sq == (0usize, 4usize) && black_ks_ready(b) {
            seq![bk_castle_move()]
        } else {
            Seq::empty()
        };
        wq + wk + bq + bk
    }
}

/// All pseudo-legal king moves: one per attacked neighbour square, plus the
/// castling moves.
pub open spec fn spec_king_moves(b: BoardModel, sq: (usize, usize), side: i8, in_check: bool) -> Seq<Move> {
    attack_moves_upto(
        b,
        sq,
        KING,
        side,
        spec_king_attacks(b, sq, side),
        spec_king_attacks(b, sq, side).len() as int,
    ) + spec_castle_moves(b, sq, side, in_check)
}

/// The king's pseudo-legal moves, castling included. Castling is only
/// generated when the king is not currently in check (`is_in_check` is the
/// caller's verdict on the current position); whether the king passes
/// through or lands on an attacked square is checked by the legality filter
/// using the move's intermediary square.
#[verifier::rlimit(100)]
pub fn generate_king_moves(
    square: (usize, usize),
    side_to_generate_for: i8,
    board: &Board,
    is_in_check: bool,
) -> (r: Vec<Move>)
    requires
        board_dims(board@),
        cells_wf(board@),
        on_board(square),
        piece_at(board@, square) == KING,
        colour_at(board@, square) == side_to_generate_for,
    ensures
        r@ == spec_king_moves(board@, square, side_to_generate_for, is_in_check),
        (side_to_generate_for == WHITE || side_to_generate_for == BLACK) ==> forall|i: int|
            0 <= i < r@.len() ==> move_fits(board@, side_to_generate_for, #[trigger] r@[i]),
{
    let side = side_to_generate_for;
    let ghost b = board@;
    let attack_squares = get_king_attacks(square, side, board);
    proof {
        lemma_step_attack_elems(b, square, side, king_offs(), false, 8);
    }
    let mut moves = moves_from_attack_list(board, square, KING, side, &attack_squares);
    let ghost step_part = moves@;
    if is_in_check {
        proof {
            assert(moves@ =~= spec_king_moves(b, square, side, is_in_check));
        }
        return moves;
    }
    if side == WHITE && square.0 == 7 && square.1 == 4 {
        if board.can_castle_a1 && board.get_piece((7, 1)) == EMPTY && board.get_piece((7, 2))
            == EMPTY && board.get_piece((7, 3)) == EMPTY && board.get_piece((7, 0)) == ROOK
            && board.get_piece_colour((7, 0)) == WHITE {
            moves.push(
                build_move(
                    square,
                    KING,
                    side,
                    (7, 2),
                    EMPTY,
                    EMPTY,
                    None,
                    false,
                    Some(((7, 0), (7, 3))),
                    Some((7, 3)),
                ),
            );
        }
        if board.can_castle_h1 && board.get_piece((7, 5)) == EMPTY && board.get_piece((7, 6))
            == EMPTY && board.get_piece((7, 7)) == ROOK && board.get_piece_colour((7, 7))
            == WHITE {
            moves.push(
                build_move(
                    square,
                    KING,
                    side,
                    (7, 6),
                    EMPTY,
                    EMPTY,
                    None,
                    false,
                    Some(((7, 7), (7, 5))),
                    Some((7, 5)),
                ),
            );
        }
    }
    if side == BLACK && square.0 == 0 && square.1 == 4 {
        if board.can_castle_a8 && board.get_piece((0, 1)) == EMPTY && board.get_piece((0, 2))
            == EMPTY && board.get_piece((0, 3)) == EMPTY && board.get_piece((0, 0)) == ROOK
            && board.get_piece_colour((0, 0)) == BLACK {
            moves.push(
                build_move(
                    square,
                    KING,
                    side,
                    (0, 2),
                    EMPTY,
                    EMPTY,
                    None,
                    false,
                    Some(((0, 0), (0, 3))),
                    Some((0, 3)),
                ),
            );
        }
        if board.can_castle_h8 && board.get_piece((0, 5)) == EMPTY && board.get_piece((0, 6))
            == EMPTY && board.get_piece((0, 7)) == ROOK && board.get_piece_colour((0, 7))
            == BLACK {
            moves.push(
                build_move(
                    square,
                    KING,
                    side,
                    (0, 6),
                    EMPTY,
                    EMPTY,
                    None,
                    false,
                    Some(((0, 7), (0, 5))),
                    Some((0, 5)),
                ),
            );
        }
    }
    proof {
        assert(moves@ =~= spec_king_moves(b, square, side, is_in_check));
        if side == WHITE || side == BLACK {
            assert forall|i: int| 0 <= i < moves@.len() implies move_fits(
                b,
                side,
                #[trigger] moves@[i],
            ) by {
                if i < step_part.len() {
                    assert(move_fits(b, side, step_part[i]));
                } else {
                    let cm = spec_castle_moves(b, square, side, is_in_check);
                    assert(moves@[i] == cm[i - step_part.len()]);
                }
            }
        }
    }
    moves
}

// ---------------------------------------------------------------------------
// All pseudo-legal moves of one side.
// ---------------------------------------------------------------------------

/// The moves contributed by square `i`: the moves of the piece standing
/// there when it belongs to `side`, nothing otherwise.
pub open spec fn piece_moves_at(b: BoardModel, side: i8, in_check: bool, i: int) -> Seq<Move> {
    let sq = (((i / 8) as usize), ((i % 8) as usize));
    if b.colours[i] == side {
        if b.pieces[i] == PAWN {
            spec_pawn_moves(b, sq, side)
        } else if b.pieces[i] == KNIGHT {
            spec_knight_moves(b, sq, side)
        } else if b.pieces[i] == BISHOP {
            spec_bishop_moves(b, sq, side)
        } else if b.pieces[i] == ROOK {
            spec_rook_moves(b, sq, side)
        } else if b.pieces[i] == QUEEN {
            spec_queen_moves(b, sq, side)
        } else if b.pieces[i] == KING {
            spec_king_moves(b, sq, side, in_check)
        } else {
            Seq::empty()
        }
    } else {
        Seq::empty()
    }
}

pub open spec fn pseudo_moves_upto(b: BoardModel, side: i8, in_check: bool, n: int) -> Seq<Move>
    decreases n,
{
    if n <= 0 {
        Seq::empty()
    } else {
        pseudo_moves_upto(b, side, in_check, n - 1) + piece_moves_at(b, side, in_check, n - 1)
    }
}

/// Every pseudo-legal move of `side`, collected square by square in
/// row-major order.
pub open spec fn spec_pseudo_legal_moves(b: BoardModel, side: i8, in_check: bool) -> Seq<Move> {
    pseudo_moves_upto(b, side, in_check, 64)
}

/// Generates every pseudo-legal move for `side_to_generate_for`. A move is
/// pseudo-legal when it obeys the piece-movement rules; whether it leaves
/// its own king attacked is checked later, by making the move and asking.
/// `is_in_check` gates castling generation.
pub fn generate_pseudo_legal_moves(board: &Board, side_to_generate_for: i8, is_in_check: bool) -> (r:
    Vec<Move>)
    requires
        board_dims(board@),
        cells_wf(board@),
    ensures
        r@ == spec_pseudo_legal_moves(board@, side_to_generate_for, is_in_check),
        (side_to_generate_for == WHITE || side_to_generate_for == BLACK) ==> forall|i: int|
            0 <= i < r@.len() ==> move_fits(board@, side_to_generate_for, #[trigger] r@[i]),
{
    let side = side_to_generate_for;
    let ghost b = board@;
    let mut moves: Vec<Move> = Vec::new();
    let mut i: usize = 0;
    while i < 64
        invariant
            board_dims(b),
            cells_wf(b),
            b == board@,
            i <= 64,
            moves@ == pseudo_moves_upto(b, side, is_in_check, i as int),
            (side == WHITE || side == BLACK) ==> forall|j: int|
                0 <= j < moves@.len() ==> move_fits(b, side, #[trigger] moves@[j]),
        decreases 64 - i,
    {
        let sq = (i / 8, i % 8);
        let colour = board.get_piece_colour(sq);
        if colour == side {
            let piece = board.get_piece(sq);
            let mut generated: Vec<Move> = if piece == PAWN {
                generate_pawn_moves(sq, side, board)
            } else if piece == KNIGHT {
                generate_knight_moves(sq, side, board)
            } else if piece == BISHOP {
                generate_bishop_moves(sq, side, board)
            } else if piece == ROOK {
                generate_rook_moves(sq, side, board)
            } else if piece == QUEEN {
                generate_queen_moves(sq, side, board)
            } else if piece == KING {
                generate_king_moves(sq, side, board, is_in_check)
            } else {
                Vec::new()
            };
            moves.append(&mut generated);
        }
        i = i + 1;
    }
    moves
}

// ---------------------------------------------------------------------------
// Where attacked squares lie, relative to the attacker.
// ---------------------------------------------------------------------------

/// Every square in a step-attack sequence is the piece's square shifted by
/// one of the offsets.
pub proof fn lemma_step_attack_offsets(
    b: BoardModel,
    sq: (usize, usize),
    side: i8,
    offs: Seq<(int, int)>,
    excl_empty: bool,
    n: int,
)
    ensures
        forall|j: int|
            0 <= j < step_attacks(b, sq, side, offs, excl_empty, n).len() ==> {
                let t = #[trigger] step_attacks(b, sq, side, offs, excl_empty, n)[j];
                exists|k: int|
                    0 <= k < n && t.0 == sq.0 + (#[trigger] offs[k]).0 && t.1 == sq.1 + offs[k].1
            },
    decreases n,
{
    if n > 0 {
        lemma_step_attack_offsets(b, sq, side, offs, excl_empty, n - 1);
        let prev = step_attacks(b, sq, side, offs, excl_empty, n - 1);
        let cur = step_attacks(b, sq, side, offs, excl_empty, n);
        assert forall|j: int| 0 <= j < cur.len() implies {
            let t = #[trigger] cur[j];
            exists|k: int|
                0 <= k < n && t.0 == sq.0 + (#[trigger] offs[k]).0 && t.1 == sq.1 + offs[k].1
        } by {
            if j < prev.len() {
                assert(cur[j] == prev[j]);
                let k = choose|k: int|
                    0 <= k < n - 1 && prev[j].0 == sq.0 + (#[trigger] offs[k]).0 && prev[j].1
                        == sq.1 + offs[k].1;
                assert(0 <= k < n && cur[j].0 == sq.0 + offs[k].0 && cur[j].1 == sq.1 + offs[k].1);
            } else {
                let d = offs[n - 1];
                assert(cur[j].0 == sq.0 + d.0 && cur[j].1 == sq.1 + d.1);
            }
        }
    }
}

/// Every square in a slide-attack sequence lies on one of the rays: the
/// piece's square plus a direction times a positive multiplier.
pub proof fn lemma_slide_attack_lines(
    b: BoardModel,
    sq: (usize, usize),
    side: i8,
    dirs: Seq<(int, int)>,
    n: int,
)
    requires
        on_board(sq),
        forall|k: int|
            0 <= k < n ==> -1 <= (#[trigger] dirs[k]).0 <= 1 && -1 <= dirs[k].1 <= 1 && dirs[k]
                != (0int, 0int),
    ensures
        forall|j: int|
            0 <= j < slide_attacks(b, sq, side, dirs, n).len() ==> {
                let t = #[trigger] slide_attacks(b, sq, side, dirs, n)[j];
                exists|k: int, m: int|
                    0 <= k < n && 1 <= m < 8 && t.0 == sq.0 + #[trigger] ((dirs[k]).0 * m) && t.1
                        == sq.1 + (dirs[k]).1 * m
            },
    decreases n,
{
    if n > 0 {
        lemma_slide_attack_lines(b, sq, side, dirs, n - 1);
        lemma_ray_elems(b, sq, side, dirs[n - 1], 1);
        let prev = slide_attacks(b, sq, side, dirs, n - 1);
        let ray = ray_from(b, sq, side, dirs[n - 1], 1);
        let cur = slide_attacks(b, sq, side, dirs, n);
        assert forall|j: int| 0 <= j < cur.len() implies {
            let t = #[trigger] cur[j];
            exists|k: int, m: int|
                0 <= k < n && 1 <= m < 8 && t.0 == sq.0 + #[trigger] ((dirs[k]).0 * m) && t.1
                    == sq.1 + (dirs[k]).1 * m
        } by {
            if j < prev.len() {
                assert(cur[j] == prev[j]);
                let (k, m) = choose|k: int, m: int|
                    0 <= k < n - 1 && 1 <= m < 8 && prev[j].0 == sq.0 + #[trigger] ((dirs[k]).0
                        * m) && prev[j].1 == sq.1 + (dirs[k]).1 * m;
                assert(0 <= k < n && 1 <= m < 8 && cur[j].0 == sq.0 + (dirs[k]).0 * m && cur[j].1
                    == sq.1 + (dirs[k]).1 * m);
            } else {
                let t = ray[j - prev.len()];
                assert(cur[j] == t);
                let d = dirs[n - 1];
                let m = choose|m: int|
                    1 <= m < 8 && t.0 == sq.0 + #[trigger] (d.0 * m) && t.1 == sq.1 + d.1 * m;
                assert(0 <= n - 1 < n && 1 <= m < 8 && cur[j].0 == sq.0 + (dirs[n - 1]).0 * m
                    && cur[j].1 == sq.1 + (dirs[n - 1]).1 * m);
            }
        }
    }
}

// ---------------------------------------------------------------------------
// Which generated moves castle: exactly the four castle moves, each under
// its full gate.
// ---------------------------------------------------------------------------

/// Step and slide moves never castle.
proof fn lemma_attack_moves_no_castle(
    b: BoardModel,
    from: (usize, usize),
    piece: i8,
    side: i8,
    atts: Seq<(usize, usize)>,
    n: int,
)
    ensures
        forall|j: int|
            0 <= j < attack_moves_upto(b, from, piece, side, atts, n).len() ==> (
            #[trigger] attack_moves_upto(b, from, piece, side, atts, n)[j]).castle_from_to_square
                is None,
    decreases n,
{
    if n > 0 {
        lemma_attack_moves_no_castle(b, from, piece, side, atts, n - 1);
    }
}

proof fn lemma_pawn_capture_moves_no_castle(
    b: BoardModel,
    from: (usize, usize),
    side: i8,
    atts: Seq<(usize, usize)>,
    promo: bool,
    n: int,
)
    ensures
        forall|j: int|
            0 <= j < pawn_capture_moves(b, from, side, atts, promo, n).len() ==> (
            #[trigger] pawn_capture_moves(b, from, side, atts, promo, n)[j]).castle_from_to_square
                is None,
    decreases n,
{
    if n > 0 {
        lemma_pawn_capture_moves_no_castle(b, from, side, atts, promo, n - 1);
    }
}

proof fn lemma_pawn_moves_no_castle(b: BoardModel, sq: (usize, usize), side: i8)
    ensures
        forall|j: int|
            0 <= j < spec_pawn_moves(b, sq, side).len() ==> (#[trigger] spec_pawn_moves(
                b,
                sq,
                side,
            )[j]).castle_from_to_square is None,
{
    let atts = spec_pawn_attacks(b, sq, side);
    let promo_row: int = if side == WHITE {
        1
    } else {
        6
    };
    lemma_pawn_capture_moves_no_castle(b, sq, side, atts, sq.0 == promo_row, atts.len() as int);
}

/// The castling facts carried by every generated move that castles: it is
/// one of the four castle moves, generated only when the king is not in
/// check, and only with its right held, the path between king and rook
/// empty, and the rook on its corner.
pub open spec fn castle_gates(b: BoardModel, side: i8, in_check: bool, m: Move) -> bool {
    m.castle_from_to_square is Some ==> {
        &&& !in_check
        &&& (m == wq_castle_move() || m == wk_castle_move() || m == bq_castle_move() || m
            == bk_castle_move())
        &&& (m == wq_castle_move() ==> side == WHITE && white_qs_ready(b))
        &&& (m == wk_castle_move() ==> side == WHITE && white_ks_ready(b))
        &&& (m == bq_castle_move() ==> side == BLACK && black_qs_ready(b))
        &&& (m == bk_castle_move() ==> side == BLACK && black_ks_ready(b))
    }
}

proof fn lemma_king_moves_castle_gates(
    b: BoardModel,
    sq: (usize, usize),
    side: i8,
    in_check: bool,
)
    ensures
        forall|j: int|
            0 <= j < spec_king_moves(b, sq, side, in_check).len() ==> castle_gates(
                b,
                side,
                in_check,
                #[trigger] spec_king_moves(b, sq, side, in_check)[j],
            ),
{
    let step = attack_moves_upto(
        b,
        sq,
        KING,
        side,
        spec_king_attacks(b, sq, side),
        spec_king_attacks(b, sq, side).len() as int,
    );
    lemma_attack_moves_no_castle(
        b,
        sq,
        KING,
        side,
        spec_king_attacks(b, sq, side),
        spec_king_attacks(b, sq, side).len() as int,
    );
    let whole = spec_king_moves(b, sq, side, in_check);
    assert forall|j: int| 0 <= j < whole.len() implies castle_gates(
        b,
        side,
        in_check,
        #[trigger] whole[j],
    ) by {
        if j < step.len() {
            assert(whole[j] == step[j]);
            assert(step[j].castle_from_to_square is None);
        } else {
            let cm = spec_castle_moves(b, sq, side, in_check);
            assert(whole[j] == cm[j - step.len()]);
        }
    }
}

/// Every pseudo-legal move that castles passes the full castling gates.
pub proof fn lemma_pseudo_moves_castle_gates(b: BoardModel, side: i8, in_check: bool, n: int)
    requires
        0 <= n <= 64,
    ensures
        forall|j: int|
            0 <= j < pseudo_moves_upto(b, side, in_check, n).len() ==> castle_gates(
                b,
                side,
                in_check,
                #[trigger] pseudo_moves_upto(b, side, in_check, n)[j],
            ),
    decreases n,
{
    if n > 0 {
        lemma_pseudo_moves_castle_gates(b, side, in_check, n - 1);
        let prev = pseudo_moves_upto(b, side, in_check, n - 1);
        let at = piece_moves_at(b, side, in_check, n - 1);
        let cur = pseudo_moves_upto(b, side, in_check, n);
        let sq = ((((n - 1) / 8) as usize), (((n - 1) % 8) as usize));
        lemma_pawn_moves_no_castle(b, sq, side);
        lemma_attack_moves_no_castle(
            b,
            sq,
            KNIGHT,
            side,
            spec_knight_attacks(b, sq, side),
            spec_knight_attacks(b, sq, side).len() as int,
        );
        lemma_attack_moves_no_castle(
            b,
            sq,
            BISHOP,
            side,
            spec_bishop_attacks(b, sq, side),
            spec_bishop_attacks(b, sq, side).len() as int,
        );
        lemma_attack_moves_no_castle(
            b,
            sq,
            ROOK,
            side,
            spec_rook_attacks(b, sq, side),
            spec_rook_attacks(b, sq, side).len() as int,
        );
        lemma_attack_moves_no_castle(
            b,
            sq,
            QUEEN,
            side,
            spec_queen_attacks(b, sq, side),
            spec_queen_attacks(b, sq, side).len() as int,
        );
        lemma_king_moves_castle_gates(b, sq, side, in_check);
        assert forall|j: int| 0 <= j < cur.len() implies castle_gates(
            b,
            side,
            in_check,
            #[trigger] cur[j],
        ) by {
            if j < prev.len() {
                assert(cur[j] == prev[j]);
                assert(castle_gates(b, side, in_check, prev[j]));
            } else {
                assert(cur[j] == at[j - prev.len()]);
            }
        }
    }
}

} // verus!
