//! The move descriptor: everything needed to apply a move to a board and to
//! take it back again without consulting anything else.

use vstd::prelude::*;
use crate::constants::EMPTY;

verus! {

/// A move, created by the move generator, scored by the search, applied and
/// reverted by the board. It carries the prior contents of both squares so
/// that `un_make_move` can restore them exactly.
#[derive(Clone, Copy, Debug)]
pub struct Move {
    pub from: (usize, usize),
    pub from_piece: i8,
    pub from_colour: i8,
    pub to: (usize, usize),
    pub to_piece: i8,
    pub to_colour: i8,
    pub promotion_to: Option<i8>,
    /// Set on a pawn double push: the move creates an en-passant opportunity.
    pub en_passant: bool,
    /// On castling: the rook's (from, to) squares.
    pub castle_from_to_square: Option<((usize, usize), (usize, usize))>,
    /// On castling: the square the king passes through, checked for attacks.
    pub castling_intermediary_square: Option<(usize, usize)>,
    pub sort_score: u8,
    pub search_score: i32,
    pub illegal_move: bool,
}

/// The move with its engine-only fields (ordering score, search score,
/// legality mark) cleared: what a move *is*, apart from how the search has
/// annotated it. Applying a move to a board depends on its core alone.
pub open spec fn move_core(m: Move) -> Move {
    Move { sort_score: 0, search_score: 0, illegal_move: false, ..m }
}

/// Clears the engine-only fields of a move.
pub fn to_move_core(m: &Move) -> (r: Move)
    ensures
        r == move_core(*m),
{
    Move { sort_score: 0, search_score: 0, illegal_move: false, ..*m }
}

/// The all-empty move value that generated moves start from.
pub open spec fn spec_default_move() -> Move {
    Move {
        from: (0, 0),
        from_piece: EMPTY,
        from_colour: EMPTY,
        to: (0, 0),
        to_piece: EMPTY,
        to_colour: EMPTY,
        promotion_to: None,
        en_passant: false,
        castle_from_to_square: None,
        castling_intermediary_square: None,
        sort_score: 0,
        search_score: 0,
        illegal_move: false,
    }
}

impl Default for Move {
    /// Returns the move with every field cleared.
    fn default() -> (m: Move)
        ensures
            m == spec_default_move(),
    {
        Move {
            from: (0, 0),
            from_piece: EMPTY,
            from_colour: EMPTY,
            to: (0, 0),
            to_piece: EMPTY,
            to_colour: EMPTY,
            promotion_to: None,
            en_passant: false,
            castle_from_to_square: None,
            castling_intermediary_square: None,
            sort_score: 0,
            search_score: 0,
            illegal_move: false,
        }
    }
}

} // verus!
