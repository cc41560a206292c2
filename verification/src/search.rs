//! The game-tree search: move ordering, quiescence search, negamax with
//! alpha-beta pruning, iterative deepening and perft. Every search function
//! proves that it hands the board back exactly as it found it.

use vstd::prelude::*;
use crate::board::{
    Board, BoardModel, board_dims, board_search_wf, board_wf, flip_side, hash_count,
    lemma_make_decreases_occupied, lemma_make_move_core, lemma_make_preserves_king,
    lemma_make_preserves_mover_king, lemma_make_preserves_search_wf, lemma_make_unmake,
    move_fits, move_ok, occupied, spec_hash, spec_make_move,
};
use crate::constants::{KING, WHITE, BLACK, EMPTY};
use crate::constants::{mvv_lva_value, spec_mvv_lva};
use crate::conversion::convert_move_to_notation;
use crate::evaluate::{evaluate, is_in_check, spec_attacked, spec_evaluate, spec_in_check};
use crate::movegen::{generate_pseudo_legal_moves, spec_pseudo_legal_moves};
use crate::moves::{Move, move_core};

verus! {

// The system clock, used only to bound the thinking time. Nothing is
// promised of it: every contract in this module holds whatever instants the
// clock hands back.
#[verifier::external_type_specification]
#[verifier::external_body]
pub struct ExInstant(std::time::Instant);

/// Relies on std::time::Instant::now for the current instant; nothing is
/// promised of the value.
#[verifier::external_body]
fn time_now() -> std::time::Instant {
    std::time::Instant::now()
}

/// Relies on std::time::Instant::elapsed and Duration::as_millis for the
/// milliseconds since `start`; nothing is promised of the value.
#[verifier::external_body]
fn elapsed_millis(start: &std::time::Instant) -> u128 {
    start.elapsed().as_millis()
}

/// A stored score for a position, keyed by its hash.
#[derive(Clone, Copy)]
pub struct TranspositionTableEntry {
    pub position_hash: u64,
    pub depth_distance: i8,
    pub position_terminal_score: i32,
}

/// Node count of one root move, reported by perft.
pub struct MoveNode {
    pub move_notation: String,
    pub nodes: i128,
}

/// One root move with the score the search gave it.
pub struct BestMoves {
    pub best_move: Move,
    pub best_score: i32,
}

/// The search driver: counters, time budget and search settings.
pub struct SearchEngine {
    pub nodes: i128,
    pub start: std::time::Instant,
    pub move_nodes: Vec<MoveNode>,
    pub depth: i8,
    pub current_depth: i8,
    pub wtime: u128,
    pub movetime: u128,
    pub btime: u128,
    pub winc: u128,
    pub binc: u128,
    pub use_time_management: bool,
    pub searching_side: i8,
    pub move_overhead: u128,
    pub transposition_table: Vec<TranspositionTableEntry>,
}

// ---------------------------------------------------------------------------
// Move ordering: MVV-LVA scoring followed by a stable descending sort.
// ---------------------------------------------------------------------------

/// The ordering bonus a move receives: the MVV-LVA entry for its victim and
/// attacker, when both are piece codes.
pub open spec fn move_order_value(m: Move) -> u8 {
    if 0 <= m.to_piece <= 6 && 0 <= m.from_piece <= 6 {
        spec_mvv_lva(m.to_piece, m.from_piece)
    } else {
        0
    }
}

/// The move with its ordering bonus added (saturating at the field's top).
pub open spec fn score_move(m: Move) -> Move {
    Move {
        sort_score: if m.sort_score + move_order_value(m) > 255 {
            255u8
        } else {
            (m.sort_score + move_order_value(m)) as u8
        },
        ..m
    }
}

pub open spec fn scored_moves(s: Seq<Move>) -> Seq<Move> {
    Seq::new(s.len(), |i: int| score_move(s[i]))
}

/// Inserts `m` into a descending list, after any equal scores: the stable
/// insertion step.
pub open spec fn insert_desc(s: Seq<Move>, m: Move) -> Seq<Move>
    decreases s.len(),
{
    if s.len() == 0 {
        seq![m]
    } else if m.sort_score <= s.last().sort_score {
        s.push(m)
    } else {
        insert_desc(s.drop_last(), m).push(s.last())
    }
}

/// The first `n` elements of `s`, insertion-sorted by descending
/// `sort_score`, stably.
pub open spec fn sort_desc(s: Seq<Move>, n: int) -> Seq<Move>
    decreases n,
{
    if n <= 0 {
        Seq::empty()
    } else {
        insert_desc(sort_desc(s, n - 1), s[n - 1])
    }
}

/// What `order_moves` does: score every move, then sort descending.
pub open spec fn spec_order_moves(s: Seq<Move>) -> Seq<Move> {
    sort_desc(scored_moves(s), s.len() as int)
}

/// Inserting keeps the length and any property of the elements.
pub proof fn lemma_insert_desc_pred(s: Seq<Move>, m: Move, p: spec_fn(Move) -> bool)
    requires
        p(m),
        forall|j: int| 0 <= j < s.len() ==> p(#[trigger] s[j]),
    ensures
        insert_desc(s, m).len() == s.len() + 1,
        forall|j: int| 0 <= j < insert_desc(s, m).len() ==> p(#[trigger] insert_desc(s, m)[j]),
    decreases s.len(),
{
    if s.len() == 0 {
    } else if m.sort_score <= s.last().sort_score {
    } else {
        assert(forall|j: int| 0 <= j < s.drop_last().len() ==> p(#[trigger] s.drop_last()[j]));
        lemma_insert_desc_pred(s.drop_last(), m, p);
    }
}

/// Sorting keeps the length and any property of the elements.
pub proof fn lemma_sort_desc_pred(s: Seq<Move>, n: int, p: spec_fn(Move) -> bool)
    requires
        0 <= n <= s.len(),
        forall|j: int| 0 <= j < n ==> p(#[trigger] s[j]),
    ensures
        sort_desc(s, n).len() == n,
        forall|j: int| 0 <= j < n ==> p(#[trigger] sort_desc(s, n)[j]),
    decreases n,
{
    if n > 0 {
        lemma_sort_desc_pred(s, n - 1, p);
        lemma_insert_desc_pred(sort_desc(s, n - 1), s[n - 1], p);
    }
}

/// Where the scan left off is where the spec-level insertion lands.
proof fn lemma_insert_desc_at(s: Seq<Move>, m: Move, pos: int)
    requires
        0 <= pos <= s.len(),
        forall|j: int| pos <= j < s.len() ==> (#[trigger] s[j]).sort_score < m.sort_score,
        pos > 0 ==> s[pos - 1].sort_score >= m.sort_score,
    ensures
        insert_desc(s, m) == s.subrange(0, pos) + seq![m] + s.subrange(pos, s.len() as int),
    decreases s.len(),
{
    if s.len() == 0 {
        assert(insert_desc(s, m) =~= s.subrange(0, pos) + seq![m] + s.subrange(
            pos,
            s.len() as int,
        ));
    } else if pos == s.len() {
        assert(s[pos - 1].sort_score >= m.sort_score);
        assert(insert_desc(s, m) == s.push(m));
        assert(s.push(m) =~= s.subrange(0, pos) + seq![m] + s.subrange(pos, s.len() as int));
    } else {
        assert(s.last().sort_score < m.sort_score);
        assert(forall|j: int|
            pos <= j < s.drop_last().len() ==> (#[trigger] s.drop_last()[j]).sort_score
                < m.sort_score);
        if pos > 0 {
            assert(s.drop_last()[pos - 1] == s[pos - 1]);
        }
        lemma_insert_desc_at(s.drop_last(), m, pos);
        assert(insert_desc(s, m) == insert_desc(s.drop_last(), m).push(s.last()));
        assert((s.drop_last().subrange(0, pos) + seq![m] + s.drop_last().subrange(
            pos,
            s.drop_last().len() as int,
        )).push(s.last()) =~= s.subrange(0, pos) + seq![m] + s.subrange(pos, s.len() as int));
    }
}

/// Inserts one move into a list kept in descending score order, after any
/// moves of equal score.
fn vec_insert_desc(v: &mut Vec<Move>, m: Move)
    ensures
        final(v)@ == insert_desc(old(v)@, m),
{
    let mut pos: usize = v.len();
    while pos > 0 && v[pos - 1].sort_score < m.sort_score
        invariant
            pos <= v@.len(),
            v@ == old(v)@,
            forall|j: int| pos <= j < v@.len() ==> (#[trigger] v@[j]).sort_score < m.sort_score,
        decreases pos,
    {
        pos = pos - 1;
    }
    proof {
        lemma_insert_desc_at(v@, m, pos as int);
    }
    v.insert(pos, m);
    proof {
        assert(final(v)@ =~= old(v)@.subrange(0, pos as int) + seq![m] + old(v)@.subrange(
            pos as int,
            old(v)@.len() as int,
        ));
    }
}

/// Scores every move by MVV-LVA (most valuable victim first, least valuable
/// attacker breaking ties) and sorts the list by descending score, keeping
/// the input order among equal scores.
pub fn order_moves(moves: &mut Vec<Move>)
    ensures
        final(moves)@ == spec_order_moves(old(moves)@),
{
    let mut i: usize = 0;
    while i < moves.len()
        invariant
            moves@.len() == old(moves)@.len(),
            i <= moves@.len(),
            forall|j: int| 0 <= j < i ==> moves@[j] == score_move(#[trigger] old(moves)@[j]),
            forall|j: int| i <= j < moves@.len() ==> moves@[j] == #[trigger] old(moves)@[j],
        decreases moves@.len() - i,
    {
        let m = moves[i];
        let v: u8 = if 0 <= m.to_piece && m.to_piece <= 6 && 0 <= m.from_piece && m.from_piece
            <= 6 {
            mvv_lva_value(m.to_piece, m.from_piece)
        } else {
            0
        };
        let new_score: u8 = if (m.sort_score as u16) + (v as u16) > 255 {
            255
        } else {
            m.sort_score + v
        };
        let mut m2 = m;
        m2.sort_score = new_score;
        moves.set(i, m2);
        i = i + 1;
    }
    proof {
        assert(moves@ =~= scored_moves(old(moves)@));
    }
    let ghost scored = moves@;
    let mut sorted: Vec<Move> = Vec::new();
    let mut i: usize = 0;
    while i < moves.len()
        invariant
            moves@ == scored,
            i <= moves@.len(),
            sorted@ == sort_desc(scored, i as int),
        decreases moves@.len() - i,
    {
        let m = moves[i];
        vec_insert_desc(&mut sorted, m);
        i = i + 1;
    }
    *moves = sorted;
}

// ---------------------------------------------------------------------------
// The engine.
// ---------------------------------------------------------------------------

/// A saturating count: node totals stick at the counter's top rather than
/// wrapping.
pub open spec fn clamp_nodes(x: int) -> int {
    if x > i128::MAX {
        i128::MAX as int
    } else {
        x
    }
}

fn add_node_counts(a: i128, b: i128) -> (r: i128)
    requires
        a >= 0,
        b >= 0,
    ensures
        r == clamp_nodes(a + b),
        r >= 0,
{
    match a.checked_add(b) {
        Some(v) => v,
        None => i128::MAX,
    }
}

/// The legality filter: a pseudo-legal move is kept when, after applying
/// it, the position has not occurred three times, the mover's king is not
/// attacked, and (for castling) the king's transit square is not attacked.
pub open spec fn spec_move_legal(b: BoardModel, m: Move) -> bool {
    let b1 = spec_make_move(b, m);
    &&& hash_count(b1.hashes, spec_hash(b1.pieces, b1.colours, b1.side)) < 3
    &&& !spec_in_check(b1, b.side)
    &&& !(m.castling_intermediary_square is Some && spec_attacked(
        b1,
        m.castling_intermediary_square->Some_0,
        flip_side(b.side),
    ))
}

/// The root move list the search scores: the pseudo-legal moves of the
/// side to move, in MVV-LVA order.
pub open spec fn root_gen(b: BoardModel) -> Seq<Move> {
    spec_order_moves(spec_pseudo_legal_moves(b, b.side, spec_in_check(b, b.side)))
}

/// A root move passes the king-safety filter: after it, the mover's king
/// is not attacked, nor (for castling) the square the king passed through.
#[verifier::opaque]
pub open spec fn root_safe(b: BoardModel, m: Move) -> bool {
    let b1 = spec_make_move(b, m);
    &&& !spec_in_check(b1, b.side)
    &&& !(m.castling_intermediary_square is Some && spec_attacked(
        b1,
        m.castling_intermediary_square->Some_0,
        flip_side(b.side),
    ))
}

/// A root move reproduces a position already seen at least twice before.
#[verifier::opaque]
pub open spec fn root_repeats(b: BoardModel, m: Move) -> bool {
    let b1 = spec_make_move(b, m);
    hash_count(b1.hashes, spec_hash(b1.pieces, b1.colours, b1.side)) >= 3
}

/// The score the search owes a kept root move at a depth: zero for a
/// threefold repetition (a draw), otherwise the negated full-window
/// alpha-beta value of the position after the move.
#[verifier::opaque]
pub open spec fn root_score(b: BoardModel, m: Move, depth: int) -> int {
    if root_repeats(b, m) {
        0
    } else {
        -spec_alpha_beta(spec_make_move(b, m), depth, low_score(), -low_score())
    }
}

/// Over the full window the alpha-beta value equals the unpruned negamax
/// value, so the score a kept, non-drawn root move is owed is the negated
/// negamax value of the position after it.
pub proof fn lemma_root_score_negamax(b: BoardModel, m: Move, depth: int)
    ensures
        root_score(b, m, depth) == if root_repeats(b, m) {
            0int
        } else {
            -spec_negamax(spec_make_move(b, m), depth)
        },
{
    reveal(root_score);
    lemma_alpha_beta_equals_negamax(spec_make_move(b, m), depth);
}

/// The depth the final deepening round runs at when no time management
/// cuts the search short.
pub open spec fn spec_final_depth(d: i8) -> int {
    if d <= 1 {
        1
    } else if d >= 100 {
        100
    } else {
        d as int
    }
}

/// What a completed deepening round at `depth` leaves true of each root
/// move: marked illegal exactly when king safety rejects it, and otherwise
/// carrying exactly the score it is owed.
#[verifier::opaque]
pub open spec fn round_done(b: BoardModel, m: Move, depth: int) -> bool {
    &&& m.illegal_move == !root_safe(b, m)
    &&& (!m.illegal_move ==> m.search_score == root_score(b, m, depth))
}

/// How many entries of a move list share a core: the multiplicity used to
/// state that the reported list holds exactly the kept root moves.
pub open spec fn count_core(s: Seq<Move>, c: Move) -> int
    decreases s.len(),
{
    if s.len() == 0 {
        0
    } else {
        count_core(s.drop_last(), c) + if move_core(s.last()) == c {
            1int
        } else {
            0int
        }
    }
}

/// How many reported entries carry a move of the given core.
pub open spec fn count_listed(s: Seq<BestMoves>, c: Move) -> int
    decreases s.len(),
{
    if s.len() == 0 {
        0
    } else {
        count_listed(s.drop_last(), c) + if move_core(s.last().best_move) == c {
            1int
        } else {
            0int
        }
    }
}

/// How many entries of a move list share a core and are not marked illegal.
pub open spec fn count_legal(s: Seq<Move>, c: Move) -> int
    decreases s.len(),
{
    if s.len() == 0 {
        0
    } else {
        count_legal(s.drop_last(), c) + if !s.last().illegal_move && move_core(s.last()) == c {
            1int
        } else {
            0int
        }
    }
}

proof fn lemma_count_core_nonneg(s: Seq<Move>, c: Move)
    ensures
        count_core(s, c) >= 0,
    decreases s.len(),
{
    if s.len() > 0 {
        lemma_count_core_nonneg(s.drop_last(), c);
    }
}

/// Every element is counted under its own core.
proof fn lemma_count_core_self(s: Seq<Move>, k: int)
    requires
        0 <= k < s.len(),
    ensures
        count_core(s, move_core(s[k])) >= 1,
    decreases s.len(),
{
    if k == s.len() - 1 {
        lemma_count_core_nonneg(s.drop_last(), move_core(s[k]));
    } else {
        assert(s.drop_last()[k] == s[k]);
        lemma_count_core_self(s.drop_last(), k);
    }
}

/// Replacing an entry by one of the same core changes no multiplicity.
proof fn lemma_count_core_update(s: Seq<Move>, i: int, x: Move)
    requires
        0 <= i < s.len(),
        move_core(x) == move_core(s[i]),
    ensures
        forall|c: Move| count_core(s.update(i, x), c) == count_core(s, c),
    decreases s.len(),
{
    if i == s.len() - 1 {
        assert forall|c: Move| count_core(s.update(i, x), c) == count_core(s, c) by {
            assert(s.update(i, x).drop_last() =~= s.drop_last());
            assert(s.update(i, x).last() == x);
        }
    } else {
        assert(s.drop_last()[i] == s[i]);
        lemma_count_core_update(s.drop_last(), i, x);
        assert forall|c: Move| count_core(s.update(i, x), c) == count_core(s, c) by {
            assert(s.update(i, x).drop_last() =~= s.drop_last().update(i, x));
            assert(s.update(i, x).last() == s.last());
            assert(count_core(s.drop_last().update(i, x), c) == count_core(s.drop_last(), c));
        }
    }
}

/// The stable root insertion adds exactly one entry of the new move's core.
proof fn lemma_insert_root_count(s: Seq<Move>, m: Move)
    ensures
        forall|c: Move|
            count_core(insert_root(s, m), c) == count_core(s, c) + (if move_core(m) == c {
                1int
            } else {
                0int
            }),
    decreases s.len(),
{
    if s.len() == 0 {
        assert forall|c: Move|
            count_core(insert_root(s, m), c) == count_core(s, c) + (if move_core(m) == c {
                1int
            } else {
                0int
            }) by {
            reveal_with_fuel(count_core, 3);
            assert(insert_root(s, m) =~= seq![m]);
            assert(seq![m].drop_last() =~= Seq::<Move>::empty());
        }
    } else if !root_before(m, s.last()) {
        assert forall|c: Move|
            count_core(insert_root(s, m), c) == count_core(s, c) + (if move_core(m) == c {
                1int
            } else {
                0int
            }) by {
            reveal_with_fuel(count_core, 3);
            assert(s.push(m).drop_last() =~= s);
        }
    } else {
        lemma_insert_root_count(s.drop_last(), m);
        assert forall|c: Move|
            count_core(insert_root(s, m), c) == count_core(s, c) + (if move_core(m) == c {
                1int
            } else {
                0int
            }) by {
            reveal_with_fuel(count_core, 3);
            assert(insert_root(s, m) == insert_root(s.drop_last(), m).push(s.last()));
            assert(insert_root(s.drop_last(), m).push(s.last()).drop_last() =~= insert_root(
                s.drop_last(),
                m,
            ));
            assert(count_core(insert_root(s.drop_last(), m), c) == count_core(s.drop_last(), c)
                + (if move_core(m) == c {
                1int
            } else {
                0int
            }));
        }
    }
}

/// Sorting the root list keeps every multiplicity.
proof fn lemma_sort_root_count(s: Seq<Move>, n: int)
    requires
        0 <= n <= s.len(),
    ensures
        forall|c: Move| count_core(sort_root(s, n), c) == count_core(s.take(n), c),
    decreases n,
{
    if n == 0 {
        assert forall|c: Move| count_core(sort_root(s, n), c) == count_core(s.take(n), c) by {
            assert(s.take(0) =~= Seq::<Move>::empty());
        }
    } else {
        lemma_sort_root_count(s, n - 1);
        lemma_insert_root_count(sort_root(s, n - 1), s[n - 1]);
        assert forall|c: Move| count_core(sort_root(s, n), c) == count_core(s.take(n), c) by {
            assert(s.take(n).drop_last() =~= s.take(n - 1));
            assert(s.take(n).last() == s[n - 1]);
        }
    }
}

/// No more entries are kept than exist.
proof fn lemma_count_legal_le(s: Seq<Move>, c: Move)
    ensures
        count_legal(s, c) <= count_core(s, c),
    decreases s.len(),
{
    if s.len() > 0 {
        lemma_count_legal_le(s.drop_last(), c);
    }
}

/// Once every entry is marked illegal exactly when king safety rejects it,
/// the kept multiplicity of a core is its full multiplicity when that core
/// is safe, and zero otherwise.
proof fn lemma_count_legal_split(b: BoardModel, s: Seq<Move>, c: Move)
    requires
        forall|j: int| 0 <= j < s.len() ==> ((#[trigger] s[j]).illegal_move == !root_safe(b, s[j])),
    ensures
        root_safe(b, c) ==> count_legal(s, c) == count_core(s, c),
        !root_safe(b, c) ==> count_legal(s, c) == 0,
    decreases s.len(),
{
    if s.len() > 0 {
        assert(forall|j: int|
            0 <= j < s.drop_last().len() ==> ((#[trigger] s.drop_last()[j]).illegal_move
                == !root_safe(b, s.drop_last()[j])));
        lemma_count_legal_split(b, s.drop_last(), c);
        let m = s.last();
        if move_core(m) == c {
            lemma_make_move_core(b, m, c);
            assert(root_safe(b, m) == root_safe(b, c)) by {
                reveal(root_safe);
            }
        }
    }
}

/// Leaf nodes a single move leads to: nothing for a king capture or an
/// illegal move, the subtree count otherwise.
pub open spec fn perft_node(b: BoardModel, m: Move, depth: int) -> nat
    decreases depth, 0int, 0int,
{
    if m.to_piece == KING {
        0
    } else if !spec_move_legal(b, m) {
        0
    } else if depth <= 0 {
        0
    } else {
        spec_perft(spec_make_move(b, m), depth - 1)
    }
}

pub open spec fn perft_sum(b: BoardModel, moves: Seq<Move>, depth: int, n: int) -> nat
    decreases depth, 1int, n,
{
    if n <= 0 {
        0
    } else {
        perft_sum(b, moves, depth, n - 1) + perft_node(b, moves[n - 1], depth)
    }
}

/// The perft count: the number of legal move sequences of length `depth`
/// from the position.
pub open spec fn spec_perft(b: BoardModel, depth: int) -> nat
    decreases depth, 2int, 0int,
{
    if depth <= 0 {
        1
    } else {
        let moves = spec_pseudo_legal_moves(b, b.side, spec_in_check(b, b.side));
        perft_sum(b, moves, depth, moves.len() as int)
    }
}

/// The report entry a legal root move is owed by perft: the move's
/// notation and the leaf count of its subtree.
pub open spec fn perft_entry_ok(b: BoardModel, m: Move, depth: int, e: MoveNode) -> bool {
    &&& e.move_notation@ == crate::conversion::spec_move_notation(m)
    &&& e.nodes == clamp_nodes(perft_node(b, m, depth) as int)
}

/// The moves of a list that perft keeps: not king captures, and passing
/// the legality filter.
pub open spec fn perft_kept(b: BoardModel, s: Seq<Move>) -> Seq<Move> {
    s.filter(|m: Move| m.to_piece != KING && spec_move_legal(b, m))
}

/// The root moves perft reports: the generated moves it keeps.
pub open spec fn perft_reported(b: BoardModel) -> Seq<Move> {
    perft_kept(b, spec_pseudo_legal_moves(b, b.side, spec_in_check(b, b.side)))
}

impl SearchEngine {
    /// A fresh engine: zeroed counters, a three-ply depth limit, no time
    /// management.
    pub fn new() -> (e: SearchEngine)
        ensures
            e.nodes == 0,
            e.move_nodes@.len() == 0,
            e.depth == 3,
            e.current_depth == 1,
            e.wtime == 0,
            e.movetime == 0,
            e.btime == 0,
            e.winc == 0,
            e.binc == 0,
            e.use_time_management == false,
            e.searching_side == WHITE,
            e.move_overhead == 10,
            e.transposition_table@.len() == 0,
    {
        SearchEngine {
            nodes: 0,
            start: time_now(),
            move_nodes: Vec::new(),
            depth: 3,
            current_depth: 1,
            winc: 0,
            movetime: 0,
            move_overhead: 10,
            wtime: 0,
            binc: 0,
            btime: 0,
            use_time_management: false,
            searching_side: WHITE,
            transposition_table: Vec::new(),
        }
    }

    /// Empties the transposition table; everything else is untouched.
    fn clear_tt(&mut self)
        ensures
            final(self).transposition_table@.len() == 0,
            *final(self) == (SearchEngine { transposition_table: final(self).transposition_table, ..*old(self) }),
    {
        self.transposition_table = Vec::new();
    }

    /// Drops every stored entry whose hash matches.
    fn delete_tt_pos_for_hash(&mut self, position_hash: u64)
        ensures
            final(self).transposition_table@ == old(self).transposition_table@.filter(
                |e: TranspositionTableEntry| e.position_hash != position_hash,
            ),
            *final(self) == (SearchEngine { transposition_table: final(self).transposition_table, ..*old(self) }),
    {
        let mut kept: Vec<TranspositionTableEntry> = Vec::new();
        let mut i: usize = 0;
        while i < self.transposition_table.len()
            invariant
                i <= self.transposition_table@.len(),
                self.transposition_table@ == old(self).transposition_table@,
                kept@ == self.transposition_table@.subrange(0, i as int).filter(
                    |e: TranspositionTableEntry| e.position_hash != position_hash,
                ),
            decreases self.transposition_table@.len() - i,
        {
            let e = self.transposition_table[i];
            proof {
                let pre = self.transposition_table@.subrange(0, i as int);
                let nxt = self.transposition_table@.subrange(0, i + 1);
                assert(nxt.drop_last() =~= pre);
                reveal(Seq::filter);
                assert(nxt.filter(|e: TranspositionTableEntry| e.position_hash != position_hash)
                    =~= if nxt.last().position_hash != position_hash {
                    pre.filter(|e: TranspositionTableEntry| e.position_hash != position_hash).push(
                        nxt.last(),
                    )
                } else {
                    pre.filter(|e: TranspositionTableEntry| e.position_hash != position_hash)
                });
            }
            if e.position_hash != position_hash {
                kept.push(e);
            }
            i = i + 1;
        }
        proof {
            assert(self.transposition_table@.subrange(0, self.transposition_table@.len() as int)
                =~= self.transposition_table@);
        }
        self.transposition_table = kept;
    }

    /// Stores a score for a position hash.
    fn add_position_to_tt(&mut self, position_hash: u64, position_terminal_score: i32, depth_distance: i8)
        ensures
            final(self).transposition_table@ == old(self).transposition_table@.push(
                TranspositionTableEntry { position_hash, depth_distance, position_terminal_score },
            ),
            *final(self) == (SearchEngine { transposition_table: final(self).transposition_table, ..*old(self) }),
    {
        self.transposition_table.push(
            TranspositionTableEntry { position_hash, position_terminal_score, depth_distance },
        );
    }

    /// The first stored entry for a hash, if any.
    fn get_position_from_tt(&self, position_hash: u64) -> (r: Option<&TranspositionTableEntry>)
        ensures
            match r {
                Some(e) => e.position_hash == position_hash && exists|j: int|
                    0 <= j < self.transposition_table@.len()
                        && self.transposition_table@[j] == *e,
                None => forall|j: int|
                    0 <= j < self.transposition_table@.len() ==> (
                    #[trigger] self.transposition_table@[j]).position_hash != position_hash,
            },
    {
        let mut i: usize = 0;
        while i < self.transposition_table.len()
            invariant
                i <= self.transposition_table@.len(),
                forall|j: int|
                    0 <= j < i ==> (#[trigger] self.transposition_table@[j]).position_hash
                        != position_hash,
            decreases self.transposition_table@.len() - i,
        {
            if self.transposition_table[i].position_hash == position_hash {
                return Some(&self.transposition_table[i]);
            }
            i = i + 1;
        }
        None
    }

    /// The milliseconds this search may spend: the explicit move time when
    /// one is set, otherwise a fraction of the side's clock plus its
    /// increment, always less a safety overhead; a fixed budget when no
    /// time management is asked for. All arithmetic saturates.
    pub fn get_allowed_time(&self, side: i8) -> (t: u128)
        ensures
            t == spec_allowed_time(
                self.use_time_management,
                self.movetime,
                self.wtime,
                self.btime,
                self.winc,
                self.binc,
                self.move_overhead,
                side,
            ),
    {
        if self.use_time_management {
            let overhead: u128 = if self.move_overhead > u128::MAX / 2 {
                u128::MAX
            } else {
                2 * self.move_overhead
            };
            if self.movetime > 0 {
                return self.movetime.saturating_sub(overhead);
            }
            let time_left = if side == WHITE {
                self.wtime
            } else {
                self.btime
            };
            let increment = if side == WHITE {
                self.winc
            } else {
                self.binc
            };
            (time_left / 30).saturating_add(increment).saturating_sub(overhead)
        } else {
            10000
        }
    }
}

/// What `get_allowed_time` computes, written out over the engine's fields.
pub open spec fn spec_allowed_time(
    use_tm: bool,
    movetime: u128,
    wtime: u128,
    btime: u128,
    winc: u128,
    binc: u128,
    overhead: u128,
    side: i8,
) -> u128 {
    let oh: u128 = if overhead > u128::MAX / 2 {
        u128::MAX
    } else {
        (2 * overhead) as u128
    };
    if use_tm {
        if movetime > 0 {
            if movetime >= oh {
                (movetime - oh) as u128
            } else {
                0
            }
        } else {
            let time_left = if side == WHITE {
                wtime
            } else {
                btime
            };
            let increment = if side == WHITE {
                winc
            } else {
                binc
            };
            let base = if time_left / 30 + increment > u128::MAX {
                u128::MAX
            } else {
                (time_left / 30 + increment) as u128
            };
            if base >= oh {
                (base - oh) as u128
            } else {
                0
            }
        }
    } else {
        10000
    }
}

/// The score a capture of the king returns in quiescence: reaching the
/// enemy king means the previous ply was illegal, and the branch is scored
/// as a win for the capturer. It exceeds every static evaluation.
pub const KING_CAPTURE_SCORE: i32 = 10000000;

/// Every static evaluation lies within this bound.
pub open spec fn eval_bound() -> int {
    1312000
}

/// The quiescence value of a position under a pruning window, exactly what
/// `quiescence_search` computes: the static evaluation stands pat, the
/// pseudo-legal captures are tried in MVV-LVA order with the window negated
/// and swapped, a capture of the king is a win for the capturer, and the
/// scan is fail-hard (a child score reaching beta returns beta).
pub open spec fn spec_quiescence(b: BoardModel, alpha: int, beta: int) -> int
    decreases occupied(b), 1int, 0int,
{
    let sp = spec_evaluate(b);
    if sp >= beta {
        beta
    } else {
        q_scan(b, nm_moves(b), 0, imax(alpha, sp), beta)
    }
}

pub open spec fn q_scan(b: BoardModel, moves: Seq<Move>, i: int, alpha: int, beta: int) -> int
    decreases occupied(b), 0int, moves.len() - i,
    via q_scan_dec
{
    if i < 0 || i >= moves.len() {
        alpha
    } else if moves[i].to_piece == EMPTY {
        q_scan(b, moves, i + 1, alpha, beta)
    } else if moves[i].to_piece == KING {
        KING_CAPTURE_SCORE as int
    } else if !(board_dims(b) && move_ok(b, moves[i])) {
        q_scan(b, moves, i + 1, alpha, beta)
    } else {
        let s = -spec_quiescence(spec_make_move(b, moves[i]), -beta, -alpha);
        if s >= beta {
            beta
        } else {
            q_scan(b, moves, i + 1, imax(alpha, s), beta)
        }
    }
}

#[via_fn]
proof fn q_scan_dec(b: BoardModel, moves: Seq<Move>, i: int, alpha: int, beta: int) {
    if 0 <= i < moves.len() && moves[i].to_piece != EMPTY && moves[i].to_piece != KING
        && board_dims(b) && move_ok(b, moves[i]) {
        lemma_make_decreases_occupied(b, moves[i]);
    }
}

/// The unpruned quiescence value: the same capture tree with no window at
/// all, the running best folding `max` over the negated child values.
pub open spec fn spec_qval(b: BoardModel) -> int
    decreases occupied(b), 1int, 0int,
{
    qval_scan(b, nm_moves(b), 0, spec_evaluate(b))
}

pub open spec fn qval_scan(b: BoardModel, moves: Seq<Move>, i: int, cur: int) -> int
    decreases occupied(b), 0int, moves.len() - i,
    via qval_scan_dec
{
    if i < 0 || i >= moves.len() {
        cur
    } else if moves[i].to_piece == EMPTY {
        qval_scan(b, moves, i + 1, cur)
    } else if moves[i].to_piece == KING {
        KING_CAPTURE_SCORE as int
    } else if !(board_dims(b) && move_ok(b, moves[i])) {
        qval_scan(b, moves, i + 1, cur)
    } else {
        let v = -spec_qval(spec_make_move(b, moves[i]));
        qval_scan(b, moves, i + 1, imax(cur, v))
    }
}

#[via_fn]
proof fn qval_scan_dec(b: BoardModel, moves: Seq<Move>, i: int, cur: int) {
    if 0 <= i < moves.len() && moves[i].to_piece != EMPTY && moves[i].to_piece != KING
        && board_dims(b) && move_ok(b, moves[i]) {
        lemma_make_decreases_occupied(b, moves[i]);
    }
}

/// The unpruned quiescence value lies between the evaluation floor and the
/// king-capture score.
proof fn lemma_qval_bounds(b: BoardModel)
    ensures
        -eval_bound() <= spec_qval(b) <= KING_CAPTURE_SCORE as int,
    decreases occupied(b), 1int, 0int,
{
    crate::evaluate::lemma_eval_range_bound(b, 0, 64);
    lemma_qval_scan_props(b, nm_moves(b), 0, spec_evaluate(b));
}

/// The pure scan grows from its running best and stays at or under the
/// king-capture score.
proof fn lemma_qval_scan_props(b: BoardModel, moves: Seq<Move>, i: int, cur: int)
    requires
        -eval_bound() <= cur <= eval_bound(),
    ensures
        cur <= qval_scan(b, moves, i, cur) <= KING_CAPTURE_SCORE as int,
    decreases occupied(b), 0int, moves.len() - i,
{
    if i < 0 || i >= moves.len() {
    } else if moves[i].to_piece == EMPTY {
        lemma_qval_scan_props(b, moves, i + 1, cur);
    } else if moves[i].to_piece == KING {
    } else if !(board_dims(b) && move_ok(b, moves[i])) {
        lemma_qval_scan_props(b, moves, i + 1, cur);
    } else {
        lemma_make_decreases_occupied(b, moves[i]);
        lemma_qval_bounds(spec_make_move(b, moves[i]));
        let v = -spec_qval(spec_make_move(b, moves[i]));
        lemma_qval_scan_props(b, moves, i + 1, imax(cur, v));
    }
}

/// The windowed quiescence value brackets the unpruned one: a window moves
/// the result only when the true value already lies outside it.
proof fn lemma_q_bracket(b: BoardModel, alpha: int, beta: int)
    requires
        alpha < beta,
        low_score() <= alpha,
        beta <= -low_score(),
    ensures
        imin(beta, spec_qval(b)) <= spec_quiescence(b, alpha, beta),
        spec_quiescence(b, alpha, beta) <= imax(alpha, spec_qval(b)),
    decreases occupied(b), 1int, 0int,
{
    crate::evaluate::lemma_eval_range_bound(b, 0, 64);
    let sp = spec_evaluate(b);
    if sp >= beta {
        lemma_qval_scan_props(b, nm_moves(b), 0, sp);
    } else {
        lemma_q_scan_bracket(b, nm_moves(b), 0, imax(alpha, sp), sp, alpha, beta);
    }
}

/// The scan-level bracket, coupling the windowed running alpha with the
/// pure running best.
proof fn lemma_q_scan_bracket(
    b: BoardModel,
    moves: Seq<Move>,
    i: int,
    a: int,
    cur: int,
    alpha: int,
    beta: int,
)
    requires
        alpha < beta,
        low_score() <= alpha,
        beta <= -low_score(),
        a < beta,
        -eval_bound() <= cur <= eval_bound(),
        imin(beta, cur) <= a,
        a <= imax(alpha, cur),
    ensures
        imin(beta, qval_scan(b, moves, i, cur)) <= q_scan(b, moves, i, a, beta),
        q_scan(b, moves, i, a, beta) <= imax(alpha, qval_scan(b, moves, i, cur)),
    decreases occupied(b), 0int, moves.len() - i,
{
    if i < 0 || i >= moves.len() {
    } else if moves[i].to_piece == EMPTY {
        lemma_q_scan_bracket(b, moves, i + 1, a, cur, alpha, beta);
    } else if moves[i].to_piece == KING {
    } else if !(board_dims(b) && move_ok(b, moves[i])) {
        lemma_q_scan_bracket(b, moves, i + 1, a, cur, alpha, beta);
    } else {
        let child = spec_make_move(b, moves[i]);
        lemma_make_decreases_occupied(b, moves[i]);
        lemma_qval_bounds(child);
        lemma_q_bracket(child, -beta, -a);
        let s = -spec_quiescence(child, -beta, -a);
        let v = -spec_qval(child);
        assert(imin(beta, v) <= s && s <= imax(a, v));
        if s >= beta {
            assert(v >= beta);
            lemma_qval_scan_props(b, moves, i + 1, imax(cur, v));
        } else {
            lemma_q_scan_bracket(b, moves, i + 1, imax(a, s), imax(cur, v), alpha, beta);
        }
    }
}

/// What `minimax` computes: the classical minimax value of the
/// depth-limited pseudo-legal game tree under a pruning window, with the
/// static evaluation at the leaves. The maximising side folds `max`, the
/// minimising side `min`, and a scan stops once the window closes.
pub open spec fn spec_minimax(
    b: BoardModel,
    depth: int,
    maxing: bool,
    alpha: int,
    beta: int,
) -> int
    decreases depth, 2int, 0int,
{
    if depth <= 0 {
        spec_evaluate(b)
    } else if maxing {
        mm_max_scan(b, nm_moves(b), depth, 0, alpha, beta, i32::MIN as int)
    } else {
        mm_min_scan(b, nm_moves(b), depth, 0, alpha, beta, i32::MAX as int)
    }
}

pub open spec fn mm_max_scan(
    b: BoardModel,
    moves: Seq<Move>,
    depth: int,
    i: int,
    alpha: int,
    beta: int,
    best: int,
) -> int
    decreases depth, 1int, moves.len() - i,
{
    if depth <= 0 || i < 0 || i >= moves.len() {
        best
    } else {
        let e = spec_minimax(spec_make_move(b, moves[i]), depth - 1, false, alpha, beta);
        let nb = imax(best, e);
        let na = imax(alpha, e);
        if beta <= na {
            nb
        } else {
            mm_max_scan(b, moves, depth, i + 1, na, beta, nb)
        }
    }
}

pub open spec fn mm_min_scan(
    b: BoardModel,
    moves: Seq<Move>,
    depth: int,
    i: int,
    alpha: int,
    beta: int,
    best: int,
) -> int
    decreases depth, 1int, moves.len() - i,
{
    if depth <= 0 || i < 0 || i >= moves.len() {
        best
    } else {
        let e = spec_minimax(spec_make_move(b, moves[i]), depth - 1, true, alpha, beta);
        let nb = imin(best, e);
        let nbeta = imin(beta, e);
        if nbeta <= alpha {
            nb
        } else {
            mm_min_scan(b, moves, depth, i + 1, alpha, nbeta, nb)
        }
    }
}

/// At the horizon minimax is the static evaluation.
proof fn lemma_mm_leaf(b: BoardModel, maxing: bool, alpha: int, beta: int)
    ensures
        spec_minimax(b, 0, maxing, alpha, beta) == spec_evaluate(b),
{
}

/// A positive-depth minimax value opens into its scan.
proof fn lemma_mm_open(b: BoardModel, depth: int, alpha: int, beta: int)
    requires
        depth >= 1,
    ensures
        spec_minimax(b, depth, true, alpha, beta) == mm_max_scan(
            b,
            nm_moves(b),
            depth,
            0,
            alpha,
            beta,
            i32::MIN as int,
        ),
        spec_minimax(b, depth, false, alpha, beta) == mm_min_scan(
            b,
            nm_moves(b),
            depth,
            0,
            alpha,
            beta,
            i32::MAX as int,
        ),
{
}

/// One step of the maximising scan, written out for the loop proofs.
#[verifier::rlimit(100)]
proof fn lemma_mm_max_step(
    b: BoardModel,
    mvs: Seq<Move>,
    depth: int,
    i: int,
    a: int,
    beta: int,
    best: int,
)
    requires
        depth >= 1,
        0 <= i < mvs.len(),
    ensures
        mm_max_scan(b, mvs, depth, i, a, beta, best) == ({
            let e = spec_minimax(spec_make_move(b, mvs[i]), depth - 1, false, a, beta);
            if beta <= imax(a, e) {
                imax(best, e)
            } else {
                mm_max_scan(b, mvs, depth, i + 1, imax(a, e), beta, imax(best, e))
            }
        }),
{
}

/// One step of the minimising scan, written out for the loop proofs.
#[verifier::rlimit(100)]
proof fn lemma_mm_min_step(
    b: BoardModel,
    mvs: Seq<Move>,
    depth: int,
    i: int,
    alpha: int,
    bt: int,
    best: int,
)
    requires
        depth >= 1,
        0 <= i < mvs.len(),
    ensures
        mm_min_scan(b, mvs, depth, i, alpha, bt, best) == ({
            let e = spec_minimax(spec_make_move(b, mvs[i]), depth - 1, true, alpha, bt);
            if imin(bt, e) <= alpha {
                imin(best, e)
            } else {
                mm_min_scan(b, mvs, depth, i + 1, alpha, imin(bt, e), imin(best, e))
            }
        }),
{
}

/// A finished scan hands back its running best.
proof fn lemma_mm_scan_end(
    b: BoardModel,
    mvs: Seq<Move>,
    depth: int,
    i: int,
    alpha: int,
    beta: int,
    best: int,
)
    requires
        i >= mvs.len(),
    ensures
        mm_max_scan(b, mvs, depth, i, alpha, beta, best) == best,
        mm_min_scan(b, mvs, depth, i, alpha, beta, best) == best,
{
}

impl SearchEngine {
    /// Extends the search along capture sequences: the static evaluation
    /// bounds the result from below ("stand pat"), captures are tried in
    /// MVV-LVA order, and a capture of the king signals that the previous
    /// ply was illegal and scores as a win for the capturer. The returned
    /// score is exactly the specification value, the board comes back
    /// exactly as it went in, and the engine state is untouched.
    #[verifier::rlimit(100)]
    pub fn quiescence_search(&mut self, board: &mut Board, alpha: i32, beta: i32) -> (score: i32)
        requires
            board_search_wf(old(board)@),
            i32::MIN < alpha,
            i32::MIN < beta,
            old(board).ply + occupied(old(board)@) + 2 <= i32::MAX,
        ensures
            final(board)@ == old(board)@,
            score == spec_quiescence(old(board)@, alpha as int, beta as int),
            i32::MIN < score,
            *final(self) == *old(self),
        decreases occupied(board@),
    {
        let ghost b0 = board@;
        let stand_pat = evaluate(board);
        proof {
            crate::evaluate::lemma_eval_range_bound(b0, 0, 64);
        }
        if stand_pat >= beta {
            return beta;
        }
        let mut alpha_mut = alpha;
        if alpha_mut < stand_pat {
            alpha_mut = stand_pat;
        }
        let side = board.side_to_move;
        let mut moves_for_current_depth = generate_pseudo_legal_moves(board, side, false);
        order_moves(&mut moves_for_current_depth);
        proof {
            let gen = spec_pseudo_legal_moves(b0, b0.side, false);
            let scored = scored_moves(gen);
            assert forall|j: int| 0 <= j < scored.len() implies move_fits(
                b0,
                b0.side,
                #[trigger] scored[j],
            ) by {
                assert(move_fits(b0, b0.side, gen[j]));
            }
            lemma_sort_desc_pred(scored, scored.len() as int, |mv: Move| move_fits(b0, b0.side, mv));
            assert(moves_for_current_depth@ == nm_moves(b0));
        }
        let mut i: usize = 0;
        while i < moves_for_current_depth.len()
            invariant
                board@ == b0,
                b0 == old(board)@,
                board_search_wf(b0),
                b0.ply + occupied(b0) + 2 <= i32::MAX,
                *self == *old(self),
                i32::MIN < alpha_mut,
                i32::MIN < beta,
                i <= moves_for_current_depth@.len(),
                moves_for_current_depth@ == nm_moves(b0),
                spec_quiescence(b0, alpha as int, beta as int) == q_scan(
                    b0,
                    nm_moves(b0),
                    i as int,
                    alpha_mut as int,
                    beta as int,
                ),
                forall|j: int|
                    0 <= j < moves_for_current_depth@.len() ==> move_fits(
                        b0,
                        b0.side,
                        #[trigger] moves_for_current_depth@[j],
                    ),
            decreases moves_for_current_depth@.len() - i,
        {
            let generated_move = moves_for_current_depth[i];
            if generated_move.to_piece != EMPTY {
                if generated_move.to_piece == KING {
                    return KING_CAPTURE_SCORE;
                }
                board.make_move(&generated_move);
                proof {
                    lemma_make_preserves_search_wf(b0, generated_move);
                    lemma_make_decreases_occupied(b0, generated_move);
                }
                let rec = self.quiescence_search(board, 0 - beta, 0 - alpha_mut);
                let score = 0 - rec;
                board.un_make_move(&generated_move);
                proof {
                    lemma_make_unmake(b0, generated_move);
                }
                if score >= beta {
                    return beta;
                }
                if score > alpha_mut {
                    alpha_mut = score;
                }
            }
            i = i + 1;
        }
        alpha_mut
    }

    /// Negamax with alpha-beta pruning: at depth zero the quiescence search
    /// scores the position; otherwise every pseudo-legal move is tried in
    /// MVV-LVA order with the window negated and swapped, and the scan stops
    /// at a beta cutoff. The returned score is exactly the specification
    /// value `spec_alpha_beta`, the board comes back exactly as it went in,
    /// and the only engine state touched is the node counter, which grows.
    #[verifier::rlimit(100)]
    pub fn alpha_beta(&mut self, board: &mut Board, depth: i8, alpha: i32, beta: i32) -> (score:
        i32)
        requires
            board_search_wf(old(board)@),
            0 <= depth,
            i32::MIN < alpha,
            i32::MIN < beta,
            old(board).ply + depth + 70 <= i32::MAX,
        ensures
            final(board)@ == old(board)@,
            score == spec_alpha_beta(old(board)@, depth as int, alpha as int, beta as int),
            i32::MIN < score,
            old(self).nodes <= final(self).nodes,
            *final(self) == (SearchEngine { nodes: final(self).nodes, ..*old(self) }),
        decreases depth,
    {
        let ghost b0 = board@;
        if depth == 0 {
            if self.nodes < i128::MAX {
                self.nodes = self.nodes + 1;
            }
            proof {
                crate::board::lemma_occ_bound(b0.pieces, 64);
            }
            return self.quiescence_search(board, alpha, beta);
        }
        let side = board.side_to_move;
        let mut moves_for_current_depth = generate_pseudo_legal_moves(board, side, false);
        order_moves(&mut moves_for_current_depth);
        proof {
            let gen = spec_pseudo_legal_moves(b0, b0.side, false);
            let scored = scored_moves(gen);
            assert forall|j: int| 0 <= j < scored.len() implies move_fits(
                b0,
                b0.side,
                #[trigger] scored[j],
            ) by {
                assert(move_fits(b0, b0.side, gen[j]));
            }
            lemma_sort_desc_pred(scored, scored.len() as int, |mv: Move| move_fits(b0, b0.side, mv));
            assert(moves_for_current_depth@ == nm_moves(b0));
        }
        let mut best_value = i32::MIN + 1;
        let mut alpha_mut = alpha;
        let mut i: usize = 0;
        while i < moves_for_current_depth.len()
            invariant
                board@ == b0,
                b0 == old(board)@,
                board_search_wf(b0),
                1 <= depth,
                b0.ply + depth + 70 <= i32::MAX,
                old(self).nodes <= self.nodes,
                *self == (SearchEngine { nodes: self.nodes, ..*old(self) }),
                i32::MIN < alpha_mut,
                i32::MIN < beta,
                i32::MIN < best_value,
                i <= moves_for_current_depth@.len(),
                moves_for_current_depth@ == nm_moves(b0),
                spec_alpha_beta(b0, depth as int, alpha as int, beta as int) == ab_scan(
                    b0,
                    nm_moves(b0),
                    depth as int,
                    i as int,
                    alpha_mut as int,
                    beta as int,
                    best_value as int,
                ),
                forall|j: int|
                    0 <= j < moves_for_current_depth@.len() ==> move_fits(
                        b0,
                        b0.side,
                        #[trigger] moves_for_current_depth@[j],
                    ),
            decreases moves_for_current_depth@.len() - i,
        {
            let generated_move = moves_for_current_depth[i];
            board.make_move(&generated_move);
            proof {
                lemma_make_preserves_search_wf(b0, generated_move);
            }
            let rec = self.alpha_beta(board, depth - 1, 0 - beta, 0 - alpha_mut);
            let eval = 0 - rec;
            board.un_make_move(&generated_move);
            proof {
                lemma_make_unmake(b0, generated_move);
            }
            if eval > best_value {
                best_value = eval;
            }
            if eval > alpha_mut {
                alpha_mut = eval;
            }
            if eval >= beta {
                return best_value;
            }
            i = i + 1;
        }
        best_value
    }

    /// Plain minimax with an alpha-beta window, kept as the engine's older
    /// search interface: the maximising side picks the largest child score,
    /// the minimising side the smallest, with the static evaluation at the
    /// leaves. The returned score is exactly the specification value
    /// `spec_minimax`, the board comes back exactly as it went in, and the
    /// only engine state touched is the node counter, which grows.
    pub fn minimax(
        &mut self,
        board: &mut Board,
        depth: i8,
        maximizing_player: bool,
        alpha: i32,
        beta: i32,
    ) -> (score: i32)
        requires
            board_search_wf(old(board)@),
            0 <= depth,
            old(board).ply + depth + 2 <= i32::MAX,
        ensures
            final(board)@ == old(board)@,
            score == spec_minimax(
                old(board)@,
                depth as int,
                maximizing_player,
                alpha as int,
                beta as int,
            ),
            depth == 0 ==> score == spec_evaluate(old(board)@),
            depth == 0 ==> final(self).nodes == clamp_nodes(old(self).nodes + 1),
            old(self).nodes <= final(self).nodes,
            *final(self) == (SearchEngine { nodes: final(self).nodes, ..*old(self) }),
        decreases depth, 1int,
    {
        if depth == 0 {
            if self.nodes < i128::MAX {
                self.nodes = self.nodes + 1;
            }
            proof {
                lemma_mm_leaf(board@, maximizing_player, alpha as int, beta as int);
            }
            return evaluate(board);
        }
        if maximizing_player {
            self.minimax_max(board, depth, alpha, beta)
        } else {
            self.minimax_min(board, depth, alpha, beta)
        }
    }

    /// The maximising half of `minimax`: folds `max` over the child values,
    /// raising alpha, until the window closes.
    #[verifier::rlimit(100)]
    fn minimax_max(&mut self, board: &mut Board, depth: i8, alpha: i32, beta: i32) -> (score: i32)
        requires
            board_search_wf(old(board)@),
            1 <= depth,
            old(board).ply + depth + 2 <= i32::MAX,
        ensures
            final(board)@ == old(board)@,
            score == spec_minimax(old(board)@, depth as int, true, alpha as int, beta as int),
            old(self).nodes <= final(self).nodes,
            *final(self) == (SearchEngine { nodes: final(self).nodes, ..*old(self) }),
        decreases depth, 0int,
    {
        let ghost b0 = board@;
        let side = board.side_to_move;
        let mut moves_for_current_depth = generate_pseudo_legal_moves(board, side, false);
        order_moves(&mut moves_for_current_depth);
        proof {
            let gen = spec_pseudo_legal_moves(b0, b0.side, false);
            let scored = scored_moves(gen);
            assert forall|j: int| 0 <= j < scored.len() implies move_fits(
                b0,
                b0.side,
                #[trigger] scored[j],
            ) by {
                assert(move_fits(b0, b0.side, gen[j]));
            }
            lemma_sort_desc_pred(scored, scored.len() as int, |mv: Move| move_fits(b0, b0.side, mv));
            assert(moves_for_current_depth@ == nm_moves(b0));
            lemma_mm_open(b0, depth as int, alpha as int, beta as int);
        }
        let mut alpha_mut = alpha;
        let mut max_eval = i32::MIN;
        let mut i: usize = 0;
        while i < moves_for_current_depth.len()
            invariant
                board@ == b0,
                b0 == old(board)@,
                board_search_wf(b0),
                1 <= depth,
                b0.ply + depth + 2 <= i32::MAX,
                old(self).nodes <= self.nodes,
                *self == (SearchEngine { nodes: self.nodes, ..*old(self) }),
                i <= moves_for_current_depth@.len(),
                moves_for_current_depth@ == nm_moves(b0),
                spec_minimax(b0, depth as int, true, alpha as int, beta as int) == mm_max_scan(
                    b0,
                    nm_moves(b0),
                    depth as int,
                    i as int,
                    alpha_mut as int,
                    beta as int,
                    max_eval as int,
                ),
                forall|j: int|
                    0 <= j < moves_for_current_depth@.len() ==> move_fits(
                        b0,
                        b0.side,
                        #[trigger] moves_for_current_depth@[j],
                    ),
            decreases moves_for_current_depth@.len() - i,
        {
            let generated_move = moves_for_current_depth[i];
            board.make_move(&generated_move);
            proof {
                lemma_make_preserves_search_wf(b0, generated_move);
            }
            let eval = self.minimax(board, depth - 1, false, alpha_mut, beta);
            board.un_make_move(&generated_move);
            proof {
                lemma_make_unmake(b0, generated_move);
                lemma_mm_max_step(
                    b0,
                    nm_moves(b0),
                    depth as int,
                    i as int,
                    alpha_mut as int,
                    beta as int,
                    max_eval as int,
                );
            }
            if eval > max_eval {
                max_eval = eval;
            }
            if eval > alpha_mut {
                alpha_mut = eval;
            }
            if beta <= alpha_mut {
                return max_eval;
            }
            i = i + 1;
        }
        proof {
            lemma_mm_scan_end(
                b0,
                nm_moves(b0),
                depth as int,
                i as int,
                alpha_mut as int,
                beta as int,
                max_eval as int,
            );
        }
        max_eval
    }

    /// The minimising half of `minimax`: folds `min` over the child values,
    /// lowering beta, until the window closes.
    #[verifier::rlimit(100)]
    fn minimax_min(&mut self, board: &mut Board, depth: i8, alpha: i32, beta: i32) -> (score: i32)
        requires
            board_search_wf(old(board)@),
            1 <= depth,
            old(board).ply + depth + 2 <= i32::MAX,
        ensures
            final(board)@ == old(board)@,
            score == spec_minimax(old(board)@, depth as int, false, alpha as int, beta as int),
            old(self).nodes <= final(self).nodes,
            *final(self) == (SearchEngine { nodes: final(self).nodes, ..*old(self) }),
        decreases depth, 0int,
    {
        let ghost b0 = board@;
        let side = board.side_to_move;
        let mut moves_for_current_depth = generate_pseudo_legal_moves(board, side, false);
        order_moves(&mut moves_for_current_depth);
        proof {
            let gen = spec_pseudo_legal_moves(b0, b0.side, false);
            let scored = scored_moves(gen);
            assert forall|j: int| 0 <= j < scored.len() implies move_fits(
                b0,
                b0.side,
                #[trigger] scored[j],
            ) by {
                assert(move_fits(b0, b0.side, gen[j]));
            }
            lemma_sort_desc_pred(scored, scored.len() as int, |mv: Move| move_fits(b0, b0.side, mv));
            assert(moves_for_current_depth@ == nm_moves(b0));
            lemma_mm_open(b0, depth as int, alpha as int, beta as int);
        }
        let mut beta_mut = beta;
        let mut min_eval = i32::MAX;
        let mut i: usize = 0;
        while i < moves_for_current_depth.len()
            invariant
                board@ == b0,
                b0 == old(board)@,
                board_search_wf(b0),
                1 <= depth,
                b0.ply + depth + 2 <= i32::MAX,
                old(self).nodes <= self.nodes,
                *self == (SearchEngine { nodes: self.nodes, ..*old(self) }),
                i <= moves_for_current_depth@.len(),
                moves_for_current_depth@ == nm_moves(b0),
                spec_minimax(b0, depth as int, false, alpha as int, beta as int) == mm_min_scan(
                    b0,
                    nm_moves(b0),
                    depth as int,
                    i as int,
                    alpha as int,
                    beta_mut as int,
                    min_eval as int,
                ),
                forall|j: int|
                    0 <= j < moves_for_current_depth@.len() ==> move_fits(
                        b0,
                        b0.side,
                        #[trigger] moves_for_current_depth@[j],
                    ),
            decreases moves_for_current_depth@.len() - i,
        {
            let generated_move = moves_for_current_depth[i];
            board.make_move(&generated_move);
            proof {
                lemma_make_preserves_search_wf(b0, generated_move);
            }
            let eval = self.minimax(board, depth - 1, true, alpha, beta_mut);
            board.un_make_move(&generated_move);
            proof {
                lemma_make_unmake(b0, generated_move);
                lemma_mm_min_step(
                    b0,
                    nm_moves(b0),
                    depth as int,
                    i as int,
                    alpha as int,
                    beta_mut as int,
                    min_eval as int,
                );
            }
            if eval < min_eval {
                min_eval = eval;
            }
            if eval < beta_mut {
                beta_mut = eval;
            }
            if beta_mut <= alpha {
                return min_eval;
            }
            i = i + 1;
        }
        proof {
            lemma_mm_scan_end(
                b0,
                nm_moves(b0),
                depth as int,
                i as int,
                alpha as int,
                beta_mut as int,
                min_eval as int,
            );
        }
        min_eval
    }

    /// Counts the legal move sequences of the given length: the perft
    /// correctness check for the move generator. The returned count equals
    /// the specification count (saturating at the counter's top), and the
    /// board comes back exactly as it went in. With `first_call`,
    /// `move_nodes` gains exactly one entry per legal root move, in
    /// generation order, holding that move's notation and its subtree
    /// count.
    #[verifier::rlimit(100)]
    pub fn perft(&mut self, board: &mut Board, depth: i8, first_call: bool) -> (nodes: i128)
        requires
            board_wf(old(board)@),
            0 <= depth,
            old(board).ply + depth + 2 <= i32::MAX,
        ensures
            final(board)@ == old(board)@,
            nodes >= 0,
            nodes == clamp_nodes(spec_perft(old(board)@, depth as int) as int),
            *final(self) == (SearchEngine {
                nodes: final(self).nodes,
                move_nodes: final(self).move_nodes,
                ..*old(self)
            }),
            !(first_call && depth >= 1) ==> final(self).move_nodes@ == old(self).move_nodes@,
            first_call && depth >= 1 ==> ({
                let rep = perft_reported(old(board)@);
                let base = old(self).move_nodes@.len() as int;
                &&& final(self).move_nodes@.len() == base + rep.len()
                &&& final(self).move_nodes@.take(base) == old(self).move_nodes@
                &&& forall|k: int|
                    0 <= k < rep.len() ==> perft_entry_ok(
                        old(board)@,
                        rep[k],
                        depth as int,
                        #[trigger] final(self).move_nodes@[base + k],
                    )
            }),
        decreases depth,
    {
        let ghost b0 = board@;
        let mut nodes: i128 = 0;
        if depth == 0 {
            return 1;
        }
        let current_side = board.side_to_move;
        let currently_in_check = is_in_check(board, current_side, None);
        let moves_for_current_depth = generate_pseudo_legal_moves(
            board,
            current_side,
            currently_in_check,
        );
        let ghost mvs = moves_for_current_depth@;
        let mut i: usize = 0;
        while i < moves_for_current_depth.len()
            invariant
                board@ == b0,
                b0 == old(board)@,
                current_side == b0.side,
                board_wf(b0),
                *self == (SearchEngine {
                    nodes: self.nodes,
                    move_nodes: self.move_nodes,
                    ..*old(self)
                }),
                1 <= depth,
                b0.ply + depth + 2 <= i32::MAX,
                i <= mvs.len(),
                moves_for_current_depth@ == mvs,
                forall|j: int| 0 <= j < mvs.len() ==> move_fits(b0, b0.side, #[trigger] mvs[j]),
                nodes >= 0,
                nodes == clamp_nodes(perft_sum(b0, mvs, depth as int, i as int) as int),
                !first_call ==> self.move_nodes@ == old(self).move_nodes@,
                first_call ==> ({
                    let kept = perft_kept(b0, mvs.take(i as int));
                    let base = old(self).move_nodes@.len() as int;
                    &&& self.move_nodes@.len() == base + kept.len()
                    &&& self.move_nodes@.take(base) == old(self).move_nodes@
                    &&& forall|k: int|
                        0 <= k < kept.len() ==> perft_entry_ok(
                            b0,
                            kept[k],
                            depth as int,
                            #[trigger] self.move_nodes@[base + k],
                        )
                }),
            decreases mvs.len() - i,
        {
            let ghost sum_i = perft_sum(b0, mvs, depth as int, i as int);
            proof {
                assert(perft_sum(b0, mvs, depth as int, i + 1) == sum_i + perft_node(
                    b0,
                    mvs[i as int],
                    depth as int,
                ));
                reveal(Seq::filter);
                assert(mvs.take(i + 1).drop_last() =~= mvs.take(i as int));
                assert(mvs.take(i + 1).last() == mvs[i as int]);
                assert(perft_kept(b0, mvs.take(i + 1)) == if mvs[i as int].to_piece != KING
                    && spec_move_legal(b0, mvs[i as int]) {
                    perft_kept(b0, mvs.take(i as int)).push(mvs[i as int])
                } else {
                    perft_kept(b0, mvs.take(i as int))
                });
            }
            let generated_move = moves_for_current_depth[i];
            if generated_move.to_piece != KING {
                board.make_move(&generated_move);
                proof {
                    lemma_make_preserves_search_wf(b0, generated_move);
                    lemma_make_preserves_king(b0, generated_move, WHITE);
                    lemma_make_preserves_king(b0, generated_move, BLACK);
                }
                proof {
                    lemma_make_preserves_mover_king(b0, generated_move);
                }
                let repeated = board.has_positions_repeated();
                let mut skipped = true;
                if !repeated {
                    let in_chk = is_in_check(
                        board,
                        current_side,
                        generated_move.castling_intermediary_square,
                    );
                    proof {
                        assert(!repeated && !in_chk ==> spec_move_legal(b0, generated_move));
                        assert(spec_move_legal(b0, generated_move) ==> !repeated && !in_chk);
                    }
                    if !in_chk {
                        skipped = false;
                        let nodes_per_root_move = self.perft(board, depth - 1, false);
                        proof {
                            assert(perft_node(b0, mvs[i as int], depth as int) == spec_perft(
                                spec_make_move(b0, generated_move),
                                depth as int - 1,
                            ));
                        }
                        nodes = add_node_counts(nodes, nodes_per_root_move);
                        proof {
                            assert(nodes == clamp_nodes(perft_sum(b0, mvs, depth as int, i + 1) as int));
                        }
                        board.un_make_move(&generated_move);
                        proof {
                            lemma_make_unmake(b0, generated_move);
                        }
                        if first_call {
                            let ghost pre_report = self.move_nodes@;
                            let notation = convert_move_to_notation(&generated_move);
                            self.move_nodes.push(
                                MoveNode { move_notation: notation, nodes: nodes_per_root_move },
                            );
                            self.nodes = add_node_counts(
                                if self.nodes >= 0 {
                                    self.nodes
                                } else {
                                    0
                                },
                                nodes,
                            );
                            proof {
                                let base = old(self).move_nodes@.len() as int;
                                assert(self.move_nodes@.take(base) =~= pre_report.take(base));
                                assert(perft_entry_ok(
                                    b0,
                                    generated_move,
                                    depth as int,
                                    self.move_nodes@[self.move_nodes@.len() - 1],
                                ));
                            }
                        }
                    }
                }
                if skipped {
                    board.un_make_move(&generated_move);
                    proof {
                        lemma_make_unmake(b0, generated_move);
                    }
                }
            }
            i = i + 1;
        }
        proof {
            assert(mvs.take(mvs.len() as int) =~= mvs);
            assert(mvs == spec_pseudo_legal_moves(b0, b0.side, spec_in_check(b0, b0.side)));
        }
        nodes
    }
}

// ---------------------------------------------------------------------------
// Root-move ordering between deepening rounds: by search score, ties broken
// by the MVV-LVA ordering score.
// ---------------------------------------------------------------------------

/// Strictly better in the root ordering.
pub open spec fn root_before(a: Move, b: Move) -> bool {
    a.search_score > b.search_score || (a.search_score == b.search_score && a.sort_score
        > b.sort_score)
}

/// Inserts `m` behind every move at least as good: the stable step.
pub open spec fn insert_root(s: Seq<Move>, m: Move) -> Seq<Move>
    decreases s.len(),
{
    if s.len() == 0 {
        seq![m]
    } else if !root_before(m, s.last()) {
        s.push(m)
    } else {
        insert_root(s.drop_last(), m).push(s.last())
    }
}

pub open spec fn sort_root(s: Seq<Move>, n: int) -> Seq<Move>
    decreases n,
{
    if n <= 0 {
        Seq::empty()
    } else {
        insert_root(sort_root(s, n - 1), s[n - 1])
    }
}

/// Root insertion keeps the length and any property of the elements.
pub proof fn lemma_insert_root_pred(s: Seq<Move>, m: Move, p: spec_fn(Move) -> bool)
    requires
        p(m),
        forall|j: int| 0 <= j < s.len() ==> p(#[trigger] s[j]),
    ensures
        insert_root(s, m).len() == s.len() + 1,
        forall|j: int| 0 <= j < insert_root(s, m).len() ==> p(#[trigger] insert_root(s, m)[j]),
    decreases s.len(),
{
    if s.len() == 0 {
    } else if !root_before(m, s.last()) {
    } else {
        assert(forall|j: int| 0 <= j < s.drop_last().len() ==> p(#[trigger] s.drop_last()[j]));
        lemma_insert_root_pred(s.drop_last(), m, p);
    }
}

pub proof fn lemma_sort_root_pred(s: Seq<Move>, n: int, p: spec_fn(Move) -> bool)
    requires
        0 <= n <= s.len(),
        forall|j: int| 0 <= j < n ==> p(#[trigger] s[j]),
    ensures
        sort_root(s, n).len() == n,
        forall|j: int| 0 <= j < n ==> p(#[trigger] sort_root(s, n)[j]),
    decreases n,
{
    if n > 0 {
        lemma_sort_root_pred(s, n - 1, p);
        lemma_insert_root_pred(sort_root(s, n - 1), s[n - 1], p);
    }
}

proof fn lemma_insert_root_at(s: Seq<Move>, m: Move, pos: int)
    requires
        0 <= pos <= s.len(),
        forall|j: int| pos <= j < s.len() ==> root_before(m, #[trigger] s[j]),
        pos > 0 ==> !root_before(m, s[pos - 1]),
    ensures
        insert_root(s, m) == s.subrange(0, pos) + seq![m] + s.subrange(pos, s.len() as int),
    decreases s.len(),
{
    if s.len() == 0 {
        assert(insert_root(s, m) =~= s.subrange(0, pos) + seq![m] + s.subrange(
            pos,
            s.len() as int,
        ));
    } else if pos == s.len() {
        assert(!root_before(m, s[pos - 1]));
        assert(insert_root(s, m) == s.push(m));
        assert(s.push(m) =~= s.subrange(0, pos) + seq![m] + s.subrange(pos, s.len() as int));
    } else {
        assert(root_before(m, s.last()));
        assert(forall|j: int|
            pos <= j < s.drop_last().len() ==> root_before(m, #[trigger] s.drop_last()[j]));
        if pos > 0 {
            assert(s.drop_last()[pos - 1] == s[pos - 1]);
        }
        lemma_insert_root_at(s.drop_last(), m, pos);
        assert(insert_root(s, m) == insert_root(s.drop_last(), m).push(s.last()));
        assert((s.drop_last().subrange(0, pos) + seq![m] + s.drop_last().subrange(
            pos,
            s.drop_last().len() as int,
        )).push(s.last()) =~= s.subrange(0, pos) + seq![m] + s.subrange(pos, s.len() as int));
    }
}

fn vec_insert_root(v: &mut Vec<Move>, m: Move)
    ensures
        final(v)@ == insert_root(old(v)@, m),
{
    let mut pos: usize = v.len();
    while pos > 0 && (v[pos - 1].search_score < m.search_score || (v[pos - 1].search_score
        == m.search_score && v[pos - 1].sort_score < m.sort_score))
        invariant
            pos <= v@.len(),
            v@ == old(v)@,
            forall|j: int| pos <= j < v@.len() ==> root_before(m, #[trigger] v@[j]),
        decreases pos,
    {
        pos = pos - 1;
    }
    proof {
        lemma_insert_root_at(v@, m, pos as int);
    }
    v.insert(pos, m);
    proof {
        assert(final(v)@ =~= old(v)@.subrange(0, pos as int) + seq![m] + old(v)@.subrange(
            pos as int,
            old(v)@.len() as int,
        ));
    }
}

/// Re-sorts the root moves by search score (descending), ties broken by the
/// heuristic ordering score, stably.
fn sort_root_moves(moves: &mut Vec<Move>)
    ensures
        final(moves)@ == sort_root(old(moves)@, old(moves)@.len() as int),
{
    let mut sorted: Vec<Move> = Vec::new();
    let mut i: usize = 0;
    while i < moves.len()
        invariant
            moves@ == old(moves)@,
            i <= moves@.len(),
            sorted@ == sort_root(moves@, i as int),
        decreases moves@.len() - i,
    {
        let m = moves[i];
        vec_insert_root(&mut sorted, m);
        i = i + 1;
    }
    *moves = sorted;
}

/// How the search reports its outcome: the selected move while any legal
/// root move exists, otherwise which terminal position the side to move
/// stands in.
pub enum SearchOutcome {
    BestMove(Move),
    Checkmate,
    Stalemate,
}

impl SearchEngine {
    /// Checks and scores one root move in place: a move that leaves the
    /// mover's king (or castling transit square) attacked is marked
    /// illegal; a move reproducing a position for the third time is kept
    /// with a draw score of zero; any other move is scored by a
    /// full-window alpha-beta search at the engine's current depth. The
    /// board comes back exactly as it went in, every other list entry is
    /// untouched, and the engine only grows its node counter.
    #[verifier::rlimit(100)]
    fn score_root_move(&mut self, board: &mut Board, moves: &mut Vec<Move>, i: usize)
        requires
            board_wf(old(board)@),
            i32::MIN + 200 <= old(board).ply,
            old(board).ply + 200 <= i32::MAX,
            i < old(moves)@.len(),
            move_fits(old(board)@, old(board)@.side, old(moves)@[i as int]),
            !old(moves)@[i as int].illegal_move,
            1 <= old(self).current_depth <= 100,
        ensures
            final(board)@ == old(board)@,
            final(moves)@.len() == old(moves)@.len(),
            forall|j: int|
                0 <= j < old(moves)@.len() && j != i ==> final(moves)@[j] == old(moves)@[j],
            move_core(final(moves)@[i as int]) == move_core(old(moves)@[i as int]),
            move_fits(old(board)@, old(board)@.side, final(moves)@[i as int]),
            round_done(old(board)@, final(moves)@[i as int], old(self).current_depth as int),
            old(self).nodes <= final(self).nodes,
            *final(self) == (SearchEngine { nodes: final(self).nodes, ..*old(self) }),
    {
        let ghost b0 = board@;
        let generated_move = moves[i];
        let current_side = board.side_to_move;
        board.make_move(&generated_move);
        proof {
            lemma_make_preserves_search_wf(b0, generated_move);
            lemma_make_preserves_mover_king(b0, generated_move);
        }
        let in_chk = is_in_check(board, current_side, generated_move.castling_intermediary_square);
        proof {
            reveal(root_safe);
            assert(in_chk == !root_safe(b0, generated_move));
        }
        if in_chk {
            let mut marked = generated_move;
            marked.illegal_move = true;
            moves.set(i, marked);
            board.un_make_move(&generated_move);
            proof {
                reveal(root_safe);
                reveal(round_done);
                lemma_make_unmake(b0, generated_move);
                lemma_make_move_core(b0, generated_move, marked);
                assert(root_safe(b0, marked) == root_safe(b0, generated_move));
                assert(round_done(b0, marked, self.current_depth as int));
            }
        } else if {
            let repeated = board.has_positions_repeated();
            repeated
        } {
            // a threefold repetition is a draw: keep the move, score it
            // zero, search it no further
            let mut drawn = generated_move;
            drawn.search_score = 0;
            moves.set(i, drawn);
            board.un_make_move(&generated_move);
            proof {
                reveal(root_safe);
                reveal(root_repeats);
                reveal(root_score);
                reveal(round_done);
                lemma_make_unmake(b0, generated_move);
                lemma_make_move_core(b0, generated_move, drawn);
                assert(root_repeats(b0, drawn));
                assert(root_safe(b0, drawn) == root_safe(b0, generated_move));
                assert(round_done(b0, drawn, self.current_depth as int));
            }
        } else {
            let rec = self.alpha_beta(board, self.current_depth, i32::MIN + 1, i32::MAX);
            let mut rescored = generated_move;
            rescored.search_score = 0 - rec;
            moves.set(i, rescored);
            board.un_make_move(&generated_move);
            proof {
                reveal(root_safe);
                reveal(root_repeats);
                reveal(root_score);
                reveal(round_done);
                lemma_make_unmake(b0, generated_move);
                lemma_make_move_core(b0, generated_move, rescored);
                assert(root_safe(b0, rescored) == root_safe(b0, generated_move));
                assert(!root_repeats(b0, rescored));
                assert(low_score() == i32::MIN + 1 && -low_score() == i32::MAX);
                assert(rescored.search_score == root_score(
                    b0,
                    rescored,
                    self.current_depth as int,
                ));
                assert(round_done(b0, rescored, self.current_depth as int));
            }
        }
    }

    /// Iterative-deepening search: every root move not yet found illegal is
    /// scored by a full-window alpha-beta search, the list is re-sorted
    /// between rounds, and rounds continue until the depth limit is reached
    /// or the time budget runs out (checked between root moves). A root
    /// move that leaves the mover's king (or castling transit square)
    /// attacked is marked illegal and excluded; one that reproduces a
    /// position for the third time is kept with a draw score of zero and
    /// not searched further. Returns every remaining root move with its
    /// score, and the best of them; with no legal move it reports
    /// checkmate or stalemate instead of a sentinel move. The board comes
    /// back exactly as it went in. In a deterministic run (no time
    /// management) the returned list holds exactly the king-safe root
    /// moves, each carrying the score it is owed at the final depth.
    #[verifier::rlimit(100)]
    pub fn search(&mut self, board: &mut Board) -> (result: (SearchOutcome, Vec<BestMoves>))
        requires
            board_wf(old(board)@),
            i32::MIN + 200 <= old(board).ply,
            old(board).ply + 200 <= i32::MAX,
        ensures
            final(board)@ == old(board)@,
            forall|j: int|
                0 <= j < result.1@.len() ==> (#[trigger] result.1@[j]).best_score
                    == result.1@[j].best_move.search_score,
            // whatever the clock did: nothing is listed that was not generated
            forall|c: Move|
                count_listed(result.1@, c) <= count_core(root_gen(old(board)@), c),
            forall|j: int|
                0 <= j < result.1@.len() ==> move_fits(
                    old(board)@,
                    old(board)@.side,
                    (#[trigger] result.1@[j]).best_move,
                ),
            // deterministic runs: the list holds exactly the king-safe root
            // moves, as often as each was generated
            !old(self).use_time_management ==> forall|c: Move|
                count_listed(result.1@, c) == (if root_safe(old(board)@, c) {
                    count_core(root_gen(old(board)@), c)
                } else {
                    0int
                }),
            // deterministic runs: every entry is a king-safe root move
            // carrying exactly the score it is owed at the final depth
            !old(self).use_time_management ==> forall|j: int|
                0 <= j < result.1@.len() ==> {
                    let m = (#[trigger] result.1@[j]).best_move;
                    &&& move_fits(old(board)@, old(board)@.side, m)
                    &&& root_safe(old(board)@, m)
                    &&& m.search_score == root_score(
                        old(board)@,
                        m,
                        spec_final_depth(old(self).depth),
                    )
                },
            // deterministic runs: an empty list means no root move is safe
            !old(self).use_time_management && result.1@.len() == 0 ==> forall|k: int|
                0 <= k < root_gen(old(board)@).len() ==> !root_safe(
                    old(board)@,
                    #[trigger] root_gen(old(board)@)[k],
                ),
            match result.0 {
                SearchOutcome::BestMove(m) => {
                    &&& result.1@.len() > 0
                    &&& exists|j: int|
                        0 <= j < result.1@.len() && (#[trigger] result.1@[j]).best_move == m
                    &&& forall|j: int|
                        0 <= j < result.1@.len() ==> (#[trigger] result.1@[j]).best_score
                            <= m.search_score
                },
                SearchOutcome::Checkmate => result.1@.len() == 0 && spec_in_check(
                    old(board)@,
                    old(board)@.side,
                ),
                SearchOutcome::Stalemate => result.1@.len() == 0 && !spec_in_check(
                    old(board)@,
                    old(board)@.side,
                ),
            },
    {
        let ghost b0 = board@;
        let mut searching = true;
        let mut best_move = Move::default();
        let mut best_score = i32::MIN;
        let mut best_moves: Vec<BestMoves> = Vec::new();
        self.clear_tt();
        self.searching_side = board.side_to_move;
        self.nodes = 0;
        self.start = time_now();
        self.current_depth = 1;
        let current_side = board.side_to_move;
        let currently_in_check = is_in_check(board, current_side, None);
        let mut moves_for_current_depth = generate_pseudo_legal_moves(
            board,
            current_side,
            currently_in_check,
        );
        order_moves(&mut moves_for_current_depth);
        proof {
            let gen = spec_pseudo_legal_moves(b0, b0.side, spec_in_check(b0, b0.side));
            let scored = scored_moves(gen);
            assert forall|j: int| 0 <= j < scored.len() implies move_fits(
                b0,
                b0.side,
                #[trigger] scored[j],
            ) by {
                assert(move_fits(b0, b0.side, gen[j]));
            }
            lemma_sort_desc_pred(scored, scored.len() as int, |mv: Move| move_fits(b0, b0.side, mv));
            assert(moves_for_current_depth@ == root_gen(b0));
        }
        // Begin from a clean slate: no move carries a legality mark from an
        // earlier search.
        let mut k: usize = 0;
        while k < moves_for_current_depth.len()
            invariant
                k <= moves_for_current_depth@.len(),
                forall|j: int|
                    0 <= j < k ==> !(#[trigger] moves_for_current_depth@[j]).illegal_move,
                forall|c: Move| count_core(moves_for_current_depth@, c) == count_core(
                    root_gen(b0),
                    c,
                ),
                forall|j: int|
                    0 <= j < moves_for_current_depth@.len() ==> move_fits(
                        b0,
                        b0.side,
                        #[trigger] moves_for_current_depth@[j],
                    ),
            decreases moves_for_current_depth@.len() - k,
        {
            let ghost pre = moves_for_current_depth@;
            let mut cleared = moves_for_current_depth[k];
            cleared.illegal_move = false;
            moves_for_current_depth.set(k, cleared);
            proof {
                lemma_count_core_update(pre, k as int, cleared);
            }
            k = k + 1;
        }
        let ghost mut rounds: int = 0;
        let ghost mut last_d: int = 0;
        while searching
            invariant
                board@ == b0,
                b0 == old(board)@,
                board_wf(b0),
                current_side == b0.side,
                i32::MIN + 200 <= b0.ply,
                b0.ply + 200 <= i32::MAX,
                1 <= self.current_depth <= 100,
                self.use_time_management == old(self).use_time_management,
                self.depth == old(self).depth,
                forall|j: int|
                    0 <= j < moves_for_current_depth@.len() ==> move_fits(
                        b0,
                        b0.side,
                        #[trigger] moves_for_current_depth@[j],
                    ),
                forall|c: Move| count_core(moves_for_current_depth@, c) == count_core(
                    root_gen(b0),
                    c,
                ),
                forall|j: int|
                    0 <= j < moves_for_current_depth@.len() ==> ((
                    #[trigger] moves_for_current_depth@[j]).illegal_move ==> !root_safe(
                        b0,
                        moves_for_current_depth@[j],
                    )),
                rounds >= 0,
                !self.use_time_management ==> {
                    &&& (rounds == 0 ==> searching && self.current_depth == 1 && forall|j: int|
                        0 <= j < moves_for_current_depth@.len() ==> !(
                        #[trigger] moves_for_current_depth@[j]).illegal_move)
                    &&& (rounds >= 1 ==> forall|j: int|
                        0 <= j < moves_for_current_depth@.len() ==> round_done(
                            b0,
                            #[trigger] moves_for_current_depth@[j],
                            last_d,
                        ))
                    &&& (searching ==> self.current_depth <= spec_final_depth(old(self).depth))
                    &&& (!searching ==> rounds >= 1 && last_d == spec_final_depth(
                        old(self).depth,
                    ))
                },
            decreases 2 * (100 - self.current_depth) + (if searching {
                1int
            } else {
                0int
            }),
        {
            let ghost round_entry_depth = self.current_depth;
            let mut i: usize = 0;
            while i < moves_for_current_depth.len() && searching
                invariant
                    board@ == b0,
                    b0 == old(board)@,
                    board_wf(b0),
                    current_side == b0.side,
                    i32::MIN + 200 <= b0.ply,
                    b0.ply + 200 <= i32::MAX,
                    1 <= self.current_depth <= 100,
                    self.current_depth == round_entry_depth,
                    self.use_time_management == old(self).use_time_management,
                    self.depth == old(self).depth,
                    i <= moves_for_current_depth@.len(),
                    forall|j: int|
                        0 <= j < moves_for_current_depth@.len() ==> move_fits(
                            b0,
                            b0.side,
                            #[trigger] moves_for_current_depth@[j],
                        ),
                    forall|c: Move| count_core(moves_for_current_depth@, c) == count_core(
                        root_gen(b0),
                        c,
                    ),
                    forall|j: int|
                        0 <= j < moves_for_current_depth@.len() ==> ((
                        #[trigger] moves_for_current_depth@[j]).illegal_move ==> !root_safe(
                            b0,
                            moves_for_current_depth@[j],
                        )),
                    rounds >= 0,
                    !self.use_time_management ==> {
                        &&& searching
                        &&& (forall|j: int|
                            0 <= j < i ==> round_done(
                                b0,
                                #[trigger] moves_for_current_depth@[j],
                                self.current_depth as int,
                            ))
                        &&& (rounds == 0 ==> forall|j: int|
                            i <= j < moves_for_current_depth@.len() ==> !(
                            #[trigger] moves_for_current_depth@[j]).illegal_move)
                        &&& (rounds >= 1 ==> forall|j: int|
                            i <= j < moves_for_current_depth@.len() ==> round_done(
                                b0,
                                #[trigger] moves_for_current_depth@[j],
                                last_d,
                            ))
                    },
                decreases moves_for_current_depth@.len() - i,
            {
                let generated_move = moves_for_current_depth[i];
                if !generated_move.illegal_move {
                    let ghost pre = moves_for_current_depth@;
                    self.score_root_move(board, &mut moves_for_current_depth, i);
                    proof {
                        reveal(round_done);
                        let cur = moves_for_current_depth@;
                        assert(cur =~= pre.update(i as int, cur[i as int]));
                        lemma_count_core_update(pre, i as int, cur[i as int]);
                        assert forall|c: Move| count_core(cur, c) == count_core(
                            root_gen(b0),
                            c,
                        ) by {
                            assert(count_core(pre.update(i as int, cur[i as int]), c)
                                == count_core(pre, c));
                            assert(count_core(pre, c) == count_core(root_gen(b0), c));
                        }
                        assert(cur[i as int].illegal_move ==> !root_safe(b0, cur[i as int]));
                    }
                    if self.use_time_management {
                        let elapsed = elapsed_millis(&self.start);
                        if elapsed > self.get_allowed_time(self.searching_side) {
                            searching = false;
                        }
                    }
                } else {
                    proof {
                        reveal(round_done);
                        if !self.use_time_management {
                            assert(round_done(
                                b0,
                                moves_for_current_depth@[i as int],
                                self.current_depth as int,
                            ));
                        }
                    }
                }
                i = i + 1;
            }
            if searching && self.use_time_management {
                let elapsed = elapsed_millis(&self.start);
                if elapsed > self.get_allowed_time(self.searching_side) {
                    searching = false;
                }
            }
            if searching && self.current_depth < 100 && (self.current_depth < self.depth
                || self.use_time_management) {
                self.current_depth = self.current_depth + 1;
            } else {
                searching = false;
            }
            proof {
                rounds = rounds + 1;
                last_d = round_entry_depth as int;
            }
            let ghost pre_sort = moves_for_current_depth@;
            sort_root_moves(&mut moves_for_current_depth);
            proof {
                lemma_sort_root_pred(
                    pre_sort,
                    pre_sort.len() as int,
                    |mv: Move| move_fits(b0, b0.side, mv),
                );
                lemma_sort_root_pred(
                    pre_sort,
                    pre_sort.len() as int,
                    |mv: Move| mv.illegal_move ==> !root_safe(b0, mv),
                );
                lemma_sort_root_count(pre_sort, pre_sort.len() as int);
                assert(pre_sort.take(pre_sort.len() as int) =~= pre_sort);
                assert forall|c: Move| count_core(moves_for_current_depth@, c) == count_core(
                    root_gen(b0),
                    c,
                ) by {
                    assert(count_core(sort_root(pre_sort, pre_sort.len() as int), c)
                        == count_core(pre_sort.take(pre_sort.len() as int), c));
                    assert(count_core(pre_sort.take(pre_sort.len() as int), c) == count_core(
                        pre_sort,
                        c,
                    ));
                    assert(count_core(pre_sort, c) == count_core(root_gen(b0), c));
                }
                if !self.use_time_management {
                    lemma_sort_root_pred(
                        pre_sort,
                        pre_sort.len() as int,
                        |mv: Move| round_done(b0, mv, last_d),
                    );
                }
            }
        }
        let ghost list = moves_for_current_depth@;
        // Report every remaining root move with its score; the best is the
        // first one carrying the maximal score.
        let mut have_best = false;
        let mut i: usize = 0;
        proof {
            assert(list.take(0) =~= Seq::<Move>::empty());
        }
        while i < moves_for_current_depth.len()
            invariant
                board@ == b0,
                b0 == old(board)@,
                board_wf(b0),
                current_side == b0.side,
                moves_for_current_depth@ == list,
                i <= list.len(),
                self.use_time_management == old(self).use_time_management,
                forall|j: int|
                    0 <= j < list.len() ==> move_fits(b0, b0.side, #[trigger] list[j]),
                forall|j: int|
                    0 <= j < list.len() ==> ((#[trigger] list[j]).illegal_move ==> !root_safe(
                        b0,
                        list[j],
                    )),
                forall|c: Move| count_core(list, c) == count_core(root_gen(b0), c),
                !self.use_time_management ==> last_d == spec_final_depth(old(self).depth)
                    && forall|j: int|
                    0 <= j < list.len() ==> round_done(b0, #[trigger] list[j], last_d),
                have_best <==> best_moves@.len() > 0,
                have_best ==> best_move.search_score == best_score,
                have_best ==> exists|j: int|
                    0 <= j < best_moves@.len() && (#[trigger] best_moves@[j]).best_move
                        == best_move,
                forall|j: int|
                    0 <= j < best_moves@.len() ==> (#[trigger] best_moves@[j]).best_score
                        == best_moves@[j].best_move.search_score,
                forall|j: int|
                    0 <= j < best_moves@.len() ==> (#[trigger] best_moves@[j]).best_score
                        <= best_score,
                forall|c: Move| count_listed(best_moves@, c) == count_legal(
                    list.take(i as int),
                    c,
                ),
                forall|j: int|
                    0 <= j < best_moves@.len() ==> move_fits(
                        b0,
                        b0.side,
                        (#[trigger] best_moves@[j]).best_move,
                    ),
                !self.use_time_management ==> forall|j: int|
                    0 <= j < best_moves@.len() ==> {
                        let m = (#[trigger] best_moves@[j]).best_move;
                        &&& root_safe(b0, m)
                        &&& m.search_score == root_score(b0, m, last_d)
                    },
            decreases list.len() - i,
        {
            let m = moves_for_current_depth[i];
            proof {
                assert(list.take(i + 1).drop_last() =~= list.take(i as int));
                assert(list.take(i + 1).last() == list[i as int]);
            }
            if !m.illegal_move {
                let ghost pre = best_moves@;
                if !have_best || m.search_score > best_score {
                    best_score = m.search_score;
                    best_move = m;
                }
                have_best = true;
                best_moves.push(BestMoves { best_move: m, best_score: m.search_score });
                proof {
                    assert(best_moves@[pre.len() as int].best_move == m);
                    assert(best_moves@.drop_last() =~= pre);
                    if best_move != m {
                        let j = choose|j: int|
                            0 <= j < pre.len() && (#[trigger] pre[j]).best_move == best_move;
                        assert(best_moves@[j].best_move == best_move);
                    }
                    if !self.use_time_management {
                        reveal(round_done);
                        reveal(root_safe);
                        assert(round_done(b0, m, last_d));
                    }
                    assert forall|c: Move|
                        count_listed(best_moves@, c) == count_legal(list.take(i + 1), c) by {
                        assert(count_listed(pre, c) == count_legal(list.take(i as int), c));
                    }
                }
            } else {
                proof {
                    assert forall|c: Move|
                        count_listed(best_moves@, c) == count_legal(list.take(i + 1), c) by {
                        assert(count_listed(best_moves@, c) == count_legal(
                            list.take(i as int),
                            c,
                        ));
                    }
                }
            }
            i = i + 1;
        }
        proof {
            assert(list.take(list.len() as int) =~= list);
        }
        if have_best {
            proof {
                reveal(round_done);
                if !self.use_time_management {
                    assert forall|c: Move|
                        count_listed(best_moves@, c) == (if root_safe(b0, c) {
                            count_core(root_gen(b0), c)
                        } else {
                            0int
                        }) by {
                        lemma_count_legal_split(b0, list, c);
                    }
                }
                assert forall|c: Move|
                    count_listed(best_moves@, c) <= count_core(root_gen(b0), c) by {
                    lemma_count_legal_le(list, c);
                }
            }
            (SearchOutcome::BestMove(best_move), best_moves)
        } else {
            proof {
                reveal(round_done);
                if !self.use_time_management {
                    assert forall|c: Move|
                        count_listed(best_moves@, c) == (if root_safe(b0, c) {
                            count_core(root_gen(b0), c)
                        } else {
                            0int
                        }) by {
                        lemma_count_legal_split(b0, list, c);
                    }
                    assert forall|k: int|
                        0 <= k < root_gen(b0).len() implies !root_safe(
                        b0,
                        #[trigger] root_gen(b0)[k],
                    ) by {
                        if root_safe(b0, root_gen(b0)[k]) {
                            let c = move_core(root_gen(b0)[k]);
                            lemma_count_core_self(root_gen(b0), k);
                            lemma_make_move_core(b0, root_gen(b0)[k], c);
                            assert(root_safe(b0, c)) by {
                                reveal(root_safe);
                            }
                            assert(count_listed(best_moves@, c) >= 1);
                        }
                    }
                }
                assert forall|c: Move|
                    count_listed(best_moves@, c) <= count_core(root_gen(b0), c) by {
                    lemma_count_legal_le(list, c);
                    lemma_count_core_nonneg(root_gen(b0), c);
                }
            }
            if is_in_check(board, current_side, None) {
                (SearchOutcome::Checkmate, best_moves)
            } else {
                (SearchOutcome::Stalemate, best_moves)
            }
        }
    }
}

// ---------------------------------------------------------------------------
// Castling legality, end to end.
// ---------------------------------------------------------------------------

/// Castling legality: a castling move is generated only when the king is
/// not currently in check, the matching right is still held, every square
/// between king and rook is empty, and the rook stands on its corner; and
/// the legality filter keeps it only when, with the move applied, neither
/// the king's destination (where it now stands) nor the square it passed
/// through is attacked by the other side.
pub proof fn lemma_castling_legality(b: BoardModel, m: Move, in_check: bool)
    requires
        spec_pseudo_legal_moves(b, b.side, in_check).contains(m),
        m.castle_from_to_square is Some,
    ensures
        !in_check,
        m == crate::movegen::wq_castle_move() || m == crate::movegen::wk_castle_move() || m
            == crate::movegen::bq_castle_move() || m == crate::movegen::bk_castle_move(),
        m == crate::movegen::wq_castle_move() ==> b.side == WHITE
            && crate::movegen::white_qs_ready(b),
        m == crate::movegen::wk_castle_move() ==> b.side == WHITE
            && crate::movegen::white_ks_ready(b),
        m == crate::movegen::bq_castle_move() ==> b.side == BLACK
            && crate::movegen::black_qs_ready(b),
        m == crate::movegen::bk_castle_move() ==> b.side == BLACK
            && crate::movegen::black_ks_ready(b),
        spec_move_legal(b, m) ==> !spec_in_check(spec_make_move(b, m), b.side) && !spec_attacked(
            spec_make_move(b, m),
            m.castling_intermediary_square->Some_0,
            flip_side(b.side),
        ),
{
    crate::movegen::lemma_pseudo_moves_castle_gates(b, b.side, in_check, 64);
    let moves = spec_pseudo_legal_moves(b, b.side, in_check);
    let j = choose|j: int| 0 <= j < moves.len() && moves[j] == m;
    assert(crate::movegen::castle_gates(b, b.side, in_check, m));
}

// ---------------------------------------------------------------------------
// Alpha-beta equivalence: pruning changes the speed, not the result.
//
// `spec_negamax` is the unpruned game-tree value: each side maximises the
// negation of the child values, with the unpruned quiescence value at the
// horizon. `spec_alpha_beta` walks the same ordered move list with a
// pruning window, updating alpha and stopping at a beta cutoff exactly as
// the engine's `alpha_beta` does (which `alpha_beta`'s own `ensures` pins).
// The law at the bottom: over the full window the pruned value equals the
// unpruned value, so the root move chosen by scanning full-window
// alpha-beta scores is the move full negamax would choose.
// ---------------------------------------------------------------------------

pub open spec fn imax(a: int, b: int) -> int {
    if a >= b {
        a
    } else {
        b
    }
}

pub open spec fn imin(a: int, b: int) -> int {
    if a <= b {
        a
    } else {
        b
    }
}

/// The sentinel below every reachable score.
pub open spec fn low_score() -> int {
    i32::MIN + 1
}

/// The move list both searches walk: the pseudo-legal moves in MVV-LVA
/// order.
pub open spec fn nm_moves(b: BoardModel) -> Seq<Move> {
    spec_order_moves(spec_pseudo_legal_moves(b, b.side, false))
}

/// The unpruned negamax value, with the unpruned quiescence value at the
/// horizon.
pub open spec fn spec_negamax(b: BoardModel, depth: int) -> int
    decreases depth, 1int, 0int,
{
    if depth <= 0 {
        spec_qval(b)
    } else {
        nm_scan(b, nm_moves(b), depth, 0, low_score())
    }
}

pub open spec fn nm_scan(b: BoardModel, moves: Seq<Move>, depth: int, i: int, best: int) -> int
    decreases depth, 0int, moves.len() - i,
{
    if depth <= 0 || i < 0 || i >= moves.len() {
        best
    } else {
        let e = -spec_negamax(spec_make_move(b, moves[i]), depth - 1);
        nm_scan(b, moves, depth, i + 1, imax(best, e))
    }
}

/// The alpha-beta value: same move list, same leaf evaluation, but the scan
/// raises alpha as it goes and stops as soon as a child's score reaches
/// beta.
pub open spec fn spec_alpha_beta(b: BoardModel, depth: int, alpha: int, beta: int) -> int
    decreases depth, 1int, 0int,
{
    if depth <= 0 {
        spec_quiescence(b, alpha, beta)
    } else {
        ab_scan(b, nm_moves(b), depth, 0, alpha, beta, low_score())
    }
}

pub open spec fn ab_scan(
    b: BoardModel,
    moves: Seq<Move>,
    depth: int,
    i: int,
    alpha: int,
    beta: int,
    best: int,
) -> int
    decreases depth, 0int, moves.len() - i,
{
    if depth <= 0 || i < 0 || i >= moves.len() {
        best
    } else {
        let e = -spec_alpha_beta(spec_make_move(b, moves[i]), depth - 1, -beta, -alpha);
        let nb = imax(best, e);
        if e >= beta {
            nb
        } else {
            ab_scan(b, moves, depth, i + 1, imax(alpha, e), beta, nb)
        }
    }
}

/// The scan never returns less than its running best.
proof fn lemma_nm_scan_ge(b: BoardModel, moves: Seq<Move>, depth: int, i: int, best: int)
    ensures
        nm_scan(b, moves, depth, i, best) >= best,
    decreases depth, 0int, moves.len() - i,
{
    if !(depth <= 0 || i < 0 || i >= moves.len()) {
        let e = -spec_negamax(spec_make_move(b, moves[i]), depth - 1);
        lemma_nm_scan_ge(b, moves, depth, i + 1, imax(best, e));
    }
}

/// The fail-soft bracket: the pruned value lies between the unpruned value
/// clipped to the window.
proof fn lemma_ab_vs_nm(b: BoardModel, depth: int, alpha: int, beta: int)
    requires
        alpha < beta,
        low_score() <= alpha,
        beta <= -low_score(),
    ensures
        imin(beta, spec_negamax(b, depth)) <= spec_alpha_beta(b, depth, alpha, beta),
        spec_alpha_beta(b, depth, alpha, beta) <= imax(alpha, spec_negamax(b, depth)),
    decreases depth, 1int, 0int,
{
    if depth > 0 {
        lemma_ab_scan_vs_nm(b, nm_moves(b), depth, 0, alpha, beta, low_score(), low_score());
    } else {
        lemma_q_bracket(b, alpha, beta);
    }
}

/// The scan-level bracket, carrying the coupling between the two running
/// bests.
proof fn lemma_ab_scan_vs_nm(
    b: BoardModel,
    moves: Seq<Move>,
    depth: int,
    i: int,
    alpha: int,
    beta: int,
    best_ab: int,
    best_nm: int,
)
    requires
        depth >= 1,
        alpha < beta,
        low_score() <= alpha,
        beta <= -low_score(),
        imin(beta, best_nm) <= best_ab,
        best_ab <= imax(alpha, best_nm),
    ensures
        imin(beta, nm_scan(b, moves, depth, i, best_nm)) <= ab_scan(
            b,
            moves,
            depth,
            i,
            alpha,
            beta,
            best_ab,
        ),
        ab_scan(b, moves, depth, i, alpha, beta, best_ab) <= imax(
            alpha,
            nm_scan(b, moves, depth, i, best_nm),
        ),
    decreases depth, 0int, moves.len() - i,
{
    if i < 0 || i >= moves.len() {
    } else {
        let child = spec_make_move(b, moves[i]);
        let v = -spec_negamax(child, depth - 1);
        let r = -spec_alpha_beta(child, depth - 1, -beta, -alpha);
        lemma_ab_vs_nm(child, depth - 1, -beta, -alpha);
        assert(imin(beta, v) <= r && r <= imax(alpha, v));
        let nb_ab = imax(best_ab, r);
        let nb_nm = imax(best_nm, v);
        lemma_nm_scan_ge(b, moves, depth, i + 1, nb_nm);
        if r >= beta {
            assert(nm_scan(b, moves, depth, i, best_nm) >= nb_nm);
        } else {
            let alpha2 = imax(alpha, r);
            assert(alpha2 < beta);
            assert(imin(beta, nb_nm) <= nb_ab);
            assert(nb_ab <= imax(alpha2, nb_nm));
            lemma_ab_scan_vs_nm(b, moves, depth, i + 1, alpha2, beta, nb_ab, nb_nm);
            let rest_nm = nm_scan(b, moves, depth, i + 1, nb_nm);
            let rest_ab = ab_scan(b, moves, depth, i + 1, alpha2, beta, nb_ab);
            assert(rest_ab <= imax(alpha2, rest_nm));
            assert(alpha2 <= imax(alpha, v));
            assert(v <= nb_nm <= rest_nm);
            assert(imax(alpha2, rest_nm) <= imax(alpha, rest_nm));
        }
    }
}

/// Every game-tree value stays within the score range.
proof fn lemma_nm_bounds(b: BoardModel, depth: int)
    ensures
        low_score() <= spec_negamax(b, depth) <= -low_score(),
    decreases depth, 1int, 0int,
{
    if depth <= 0 {
        lemma_qval_bounds(b);
    } else {
        lemma_nm_scan_bounds(b, nm_moves(b), depth, 0, low_score());
    }
}

proof fn lemma_nm_scan_bounds(b: BoardModel, moves: Seq<Move>, depth: int, i: int, best: int)
    requires
        depth >= 1,
        low_score() <= best <= -low_score(),
    ensures
        low_score() <= nm_scan(b, moves, depth, i, best) <= -low_score(),
    decreases depth, 0int, moves.len() - i,
{
    if !(i < 0 || i >= moves.len()) {
        let child = spec_make_move(b, moves[i]);
        lemma_nm_bounds(child, depth - 1);
        let e = -spec_negamax(child, depth - 1);
        lemma_nm_scan_bounds(b, moves, depth, i + 1, imax(best, e));
    }
}

/// Alpha-beta equivalence: over the full window, the alpha-beta value
/// equals the unpruned negamax value — pruning changes the speed of the
/// search, never its result. The root of the iterative-deepening search
/// scores every legal root move with this full window, so the move it
/// selects is the move full negamax would select.
pub proof fn lemma_alpha_beta_equals_negamax(b: BoardModel, depth: int)
    ensures
        spec_alpha_beta(b, depth, low_score(), -low_score()) == spec_negamax(b, depth),
{
    lemma_nm_bounds(b, depth);
    lemma_ab_vs_nm(b, depth, low_score(), -low_score());
    let v = spec_negamax(b, depth);
    let r = spec_alpha_beta(b, depth, low_score(), -low_score());
    assert(imin(-low_score(), v) <= r && r <= imax(low_score(), v));
}

} // verus!
