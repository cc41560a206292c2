//! The board: an 8x8 grid of piece kinds and colours plus game metadata,
//! with reversible move application. `make_move` and `un_make_move` carry
//! exact functional contracts over an abstract model, and
//! `lemma_make_unmake` proves that unmaking a just-made move restores the
//! board bit for bit.

use vstd::prelude::*;
use crate::constants::{PAWN, KNIGHT, BISHOP, ROOK, QUEEN, KING, WHITE, BLACK, EMPTY};
use crate::moves::Move;
use vstd::string::StringSliceAdditionalSpecFns;
use vstd::string::StringExecFns;

verus! {

/// Metadata saved before each move so that `un_make_move` can restore it.
#[derive(Clone, Copy)]
pub struct PlyData {
    pub ply: i32,
    pub side_to_move: i8,
    pub can_castle_a1: bool,
    pub can_castle_a8: bool,
    pub can_castle_h1: bool,
    pub can_castle_h8: bool,
    pub en_passant_location: Option<(usize, usize)>,
}

/// The mathematical model of a board: plain sequences and values, with no
/// commitment to the executable representation.
#[verifier::ext_equal]
pub struct BoardModel {
    /// Piece kind per square, row-major, 64 entries.
    pub pieces: Seq<i8>,
    /// Piece colour per square, row-major, 64 entries.
    pub colours: Seq<i8>,
    pub castle_a1: bool,
    pub castle_a8: bool,
    pub castle_h1: bool,
    pub castle_h8: bool,
    pub ep: Option<(usize, usize)>,
    pub ply: int,
    pub side: i8,
    pub hashes: Seq<u64>,
    pub records: Seq<PlyData>,
    pub moves: Seq<Move>,
}

/// The board state: piece and colour grids stored row-major (rank 8 first),
/// four castling-rights flags, the en-passant opportunity, the side to move,
/// the ply count, the hash of every earlier position, and the undo stack.
pub struct Board {
    pub board_array: Vec<i8>,
    pub colour_array: Vec<i8>,
    pub can_castle_a1: bool,
    pub can_castle_a8: bool,
    pub can_castle_h1: bool,
    pub can_castle_h8: bool,
    pub en_passant_location: Option<(usize, usize)>,
    pub ply: i32,
    pub side_to_move: i8,
    pub hash_of_previous_positions: Vec<u64>,
    pub ply_record: Vec<PlyData>,
    pub move_list: Vec<Move>,
}

impl View for Board {
    type V = BoardModel;

    open spec fn view(&self) -> BoardModel {
        BoardModel {
            pieces: self.board_array@,
            colours: self.colour_array@,
            castle_a1: self.can_castle_a1,
            castle_a8: self.can_castle_a8,
            castle_h1: self.can_castle_h1,
            castle_h8: self.can_castle_h8,
            ep: self.en_passant_location,
            ply: self.ply as int,
            side: self.side_to_move,
            hashes: self.hash_of_previous_positions@,
            records: self.ply_record@,
            moves: self.move_list@,
        }
    }
}

/// Row-major index of a square.
pub open spec fn sq_idx(l: (usize, usize)) -> int {
    l.0 * 8 + l.1
}

pub open spec fn on_board(l: (usize, usize)) -> bool {
    l.0 < 8 && l.1 < 8
}

pub open spec fn flip_side(side: i8) -> i8 {
    if side == WHITE {
        BLACK
    } else {
        WHITE
    }
}

/// The two grids have one entry per square.
pub open spec fn board_dims(b: BoardModel) -> bool {
    b.pieces.len() == 64 && b.colours.len() == 64
}

/// Every cell holds a piece code and a colour code, empty squares agreeing
/// in both grids.
pub open spec fn cells_wf(b: BoardModel) -> bool {
    &&& (forall|i: int| 0 <= i < 64 ==> 0 <= #[trigger] b.pieces[i] <= 6)
    &&& (forall|i: int|
        0 <= i < 64 ==> (#[trigger] b.colours[i] == EMPTY || b.colours[i] == WHITE
            || b.colours[i] == BLACK))
    &&& (forall|i: int| 0 <= i < 64 ==> ((#[trigger] b.pieces[i] == EMPTY) <==> b.colours[i] == EMPTY))
}

pub open spec fn ep_on_board(ep: Option<(usize, usize)>) -> bool {
    ep is Some ==> on_board(ep->Some_0)
}

pub open spec fn piece_at(b: BoardModel, l: (usize, usize)) -> i8 {
    b.pieces[sq_idx(l)]
}

pub open spec fn colour_at(b: BoardModel, l: (usize, usize)) -> i8 {
    b.colours[sq_idx(l)]
}

/// A king of the given colour stands somewhere on the board.
pub open spec fn has_king(b: BoardModel, side: i8) -> bool {
    exists|i: int| 0 <= i < 64 && #[trigger] b.pieces[i] == KING && b.colours[i] == side
}

/// The well-formedness every search entry point relies on.
pub open spec fn board_wf(b: BoardModel) -> bool {
    &&& board_dims(b)
    &&& cells_wf(b)
    &&& ep_on_board(b.ep)
    &&& (b.side == WHITE || b.side == BLACK)
    &&& has_king(b, WHITE)
    &&& has_king(b, BLACK)
}

// ---------------------------------------------------------------------------
// The position hash: a polynomial fold over both grids and the side to move.
// ---------------------------------------------------------------------------

/// One fold step; the modulus keeps every intermediate value well inside u64.
pub open spec fn hash_step(h: u64, x: u64) -> u64 {
    (((h * 131) + x) % 0x1000_0000_0000) as u64
}

pub open spec fn hash_cells(cells: Seq<i8>, h0: u64, n: int) -> u64
    decreases n,
{
    if n <= 0 {
        h0
    } else {
        hash_step(hash_cells(cells, h0, n - 1), cells[n - 1] as u64)
    }
}

/// The fingerprint of a position: piece placement, colour placement and the
/// side to move, folded into one value.
pub open spec fn spec_hash(pieces: Seq<i8>, colours: Seq<i8>, side: i8) -> u64 {
    hash_step(hash_cells(colours, hash_cells(pieces, 5381u64, 64), 64), side as u64)
}

/// How often `h` occurs in `hashes`.
pub open spec fn hash_count(hashes: Seq<u64>, h: u64) -> int
    decreases hashes.len(),
{
    if hashes.len() == 0 {
        0
    } else {
        hash_count(hashes.drop_last(), h) + if hashes.last() == h {
            1int
        } else {
            0int
        }
    }
}

// ---------------------------------------------------------------------------
// The starting position.
// ---------------------------------------------------------------------------

pub open spec fn start_back_rank(c: int) -> i8 {
    if c == 0 || c == 7 {
        ROOK
    } else if c == 1 || c == 6 {
        KNIGHT
    } else if c == 2 || c == 5 {
        BISHOP
    } else if c == 3 {
        QUEEN
    } else {
        KING
    }
}

pub open spec fn start_piece(i: int) -> i8 {
    if i / 8 == 0 || i / 8 == 7 {
        start_back_rank(i % 8)
    } else if i / 8 == 1 || i / 8 == 6 {
        PAWN
    } else {
        EMPTY
    }
}

pub open spec fn start_colour(i: int) -> i8 {
    if i / 8 <= 1 {
        BLACK
    } else if i / 8 >= 6 {
        WHITE
    } else {
        EMPTY
    }
}

fn back_rank_piece(c: usize) -> (p: i8)
    requires
        c < 8,
    ensures
        p == start_back_rank(c as int),
{
    if c == 0 || c == 7 {
        ROOK
    } else if c == 1 || c == 6 {
        KNIGHT
    } else if c == 2 || c == 5 {
        BISHOP
    } else if c == 3 {
        QUEEN
    } else {
        KING
    }
}

/// Fills the two grids with the initial game array.
fn fill_start_arrays(pieces: &mut Vec<i8>, colours: &mut Vec<i8>)
    ensures
        final(pieces)@.len() == 64,
        final(colours)@.len() == 64,
        forall|i: int| 0 <= i < 64 ==> final(pieces)@[i] == start_piece(i),
        forall|i: int| 0 <= i < 64 ==> final(colours)@[i] == start_colour(i),
{
    let mut p: Vec<i8> = Vec::new();
    let mut c: Vec<i8> = Vec::new();
    let mut i: usize = 0;
    while i < 64
        invariant
            i <= 64,
            p@.len() == i,
            c@.len() == i,
            forall|j: int| 0 <= j < i ==> p@[j] == start_piece(j),
            forall|j: int| 0 <= j < i ==> c@[j] == start_colour(j),
        decreases 64 - i,
    {
        let r = i / 8;
        let col = i % 8;
        let piece: i8 = if r == 0 || r == 7 {
            back_rank_piece(col)
        } else if r == 1 || r == 6 {
            PAWN
        } else {
            EMPTY
        };
        let colour: i8 = if r <= 1 {
            BLACK
        } else if r >= 6 {
            WHITE
        } else {
            EMPTY
        };
        p.push(piece);
        c.push(colour);
        i = i + 1;
    }
    *pieces = p;
    *colours = c;
}

impl Board {
    /// The model a freshly initialised board has.
    pub open spec fn start_model() -> BoardModel {
        BoardModel {
            pieces: Seq::new(64, |i: int| start_piece(i)),
            colours: Seq::new(64, |i: int| start_colour(i)),
            castle_a1: true,
            castle_a8: true,
            castle_h1: true,
            castle_h8: true,
            ep: None,
            ply: 0,
            side: WHITE,
            hashes: Seq::empty(),
            records: Seq::empty(),
            moves: Seq::empty(),
        }
    }

    /// A new board holding the initial game position, white to move.
    pub fn init() -> (b: Board)
        ensures
            b@ == Self::start_model(),
            board_wf(b@),
    {
        let mut pieces: Vec<i8> = Vec::new();
        let mut colours: Vec<i8> = Vec::new();
        fill_start_arrays(&mut pieces, &mut colours);
        let b = Board {
            board_array: pieces,
            colour_array: colours,
            can_castle_a1: true,
            can_castle_a8: true,
            can_castle_h1: true,
            can_castle_h8: true,
            en_passant_location: None,
            ply: 0,
            side_to_move: WHITE,
            hash_of_previous_positions: Vec::new(),
            ply_record: Vec::new(),
            move_list: Vec::new(),
        };
        proof {
            assert(b@.pieces =~= Self::start_model().pieces);
            assert(b@.colours =~= Self::start_model().colours);
            assert(b@ =~= Self::start_model());
            assert(b@.pieces[4] == KING && b@.colours[4] == BLACK);
            assert(b@.pieces[60] == KING && b@.colours[60] == WHITE);
        }
        b
    }

    pub fn get_piece(&self, location: (usize, usize)) -> (p: i8)
        requires
            board_dims(self@),
            on_board(location),
        ensures
            p == piece_at(self@, location),
    {
        self.board_array[location.0 * 8 + location.1]
    }

    pub fn get_piece_colour(&self, location: (usize, usize)) -> (c: i8)
        requires
            board_dims(self@),
            on_board(location),
        ensures
            c == colour_at(self@, location),
    {
        self.colour_array[location.0 * 8 + location.1]
    }

    /// Overwrites one square with the given piece and colour.
    pub fn set_piece_and_colour(&mut self, location: (usize, usize), piece: i8, colour: i8)
        requires
            board_dims(old(self)@),
            on_board(location),
        ensures
            final(self)@ == (BoardModel {
                pieces: old(self)@.pieces.update(sq_idx(location), piece),
                colours: old(self)@.colours.update(sq_idx(location), colour),
                ..old(self)@
            }),
    {
        let i = location.0 * 8 + location.1;
        self.board_array[i] = piece;
        self.colour_array[i] = colour;
    }

    /// Placeholder kept from the engine's interface; FEN output lives in
    /// `conversion::convert_board_to_fen`.
    pub fn get_fen(&self) -> (s: String)
        ensures
            s@.len() == 0,
    {
        String::new()
    }

    /// Puts the initial piece array back and clears all metadata. Castling
    /// rights are left revoked; `init` is the constructor that grants them.
    pub fn reset_board(&mut self)
        ensures
            final(self)@ == (BoardModel {
                castle_a1: false,
                castle_a8: false,
                castle_h1: false,
                castle_h8: false,
                ..Board::start_model()
            }),
    {
        let mut pieces: Vec<i8> = Vec::new();
        let mut colours: Vec<i8> = Vec::new();
        fill_start_arrays(&mut pieces, &mut colours);
        self.board_array = pieces;
        self.colour_array = colours;
        self.en_passant_location = None;
        self.can_castle_a1 = false;
        self.can_castle_h1 = false;
        self.can_castle_a8 = false;
        self.can_castle_h8 = false;
        self.ply = 0;
        self.side_to_move = WHITE;
        self.hash_of_previous_positions = Vec::new();
        self.ply_record = Vec::new();
        self.move_list = Vec::new();
        proof {
            assert(final(self)@.pieces =~= Board::start_model().pieces);
            assert(final(self)@.colours =~= Board::start_model().colours);
            assert(final(self)@ =~= BoardModel {
                castle_a1: false,
                castle_a8: false,
                castle_h1: false,
                castle_h8: false,
                ..Board::start_model()
            });
        }
    }

    /// Resets the metadata and empties every square.
    pub fn clear_board(&mut self)
        ensures
            final(self)@ == (BoardModel {
                pieces: Seq::new(64, |i: int| EMPTY),
                colours: Seq::new(64, |i: int| EMPTY),
                castle_a1: false,
                castle_a8: false,
                castle_h1: false,
                castle_h8: false,
                ..Board::start_model()
            }),
    {
        self.reset_board();
        let mut pieces: Vec<i8> = Vec::new();
        let mut colours: Vec<i8> = Vec::new();
        let mut i: usize = 0;
        while i < 64
            invariant
                i <= 64,
                pieces@.len() == i,
                colours@.len() == i,
                forall|j: int| 0 <= j < i ==> pieces@[j] == EMPTY,
                forall|j: int| 0 <= j < i ==> colours@[j] == EMPTY,
            decreases 64 - i,
        {
            pieces.push(EMPTY);
            colours.push(EMPTY);
            i = i + 1;
        }
        self.board_array = pieces;
        self.colour_array = colours;
        proof {
            assert(final(self)@.pieces =~= Seq::new(64, |i: int| EMPTY));
            assert(final(self)@.colours =~= Seq::new(64, |i: int| EMPTY));
            assert(final(self)@ =~= BoardModel {
                pieces: Seq::new(64, |i: int| EMPTY),
                colours: Seq::new(64, |i: int| EMPTY),
                castle_a1: false,
                castle_a8: false,
                castle_h1: false,
                castle_h8: false,
                ..Board::start_model()
            });
        }
    }
}

// ---------------------------------------------------------------------------
// Making and unmaking moves: the abstract transition functions.
// ---------------------------------------------------------------------------

/// Distance between two coordinates.
pub open spec fn coord_dist(a: usize, b: usize) -> int {
    if a >= b {
        a - b
    } else {
        b - a
    }
}

/// True when applying `m` removes an en-passant-captured pawn: the board
/// records an en-passant opportunity on `e`, and `m` is a pawn moving
/// diagonally from beside `e` into `e`'s column, onto an empty square.
pub open spec fn ep_capture_fires(ep: Option<(usize, usize)>, m: Move) -> bool {
    ep is Some && {
        let e = ep->Some_0;
        &&& on_board(e)
        &&& m.to.1 == e.1
        &&& m.from_piece == PAWN
        &&& m.to_piece == EMPTY
        &&& coord_dist(e.1, m.from.1) == 1
        &&& e.0 == m.from.0
    }
}

/// The piece that ends up on the destination square: the promotion piece if
/// the move promotes, the moving piece otherwise.
pub open spec fn placed_piece(m: Move) -> i8 {
    match m.promotion_to {
        Some(p) => p,
        None => m.from_piece,
    }
}

/// Castling right tied to the rook on `corner`, after `m`: revoked when that
/// side's king moves, when the rook on that corner moves, or when it is
/// captured.
pub open spec fn right_after(had: bool, m: Move, corner: (usize, usize), colour: i8) -> bool {
    &&& had
    &&& !(m.from_piece == KING && m.from_colour == colour)
    &&& !(m.from_piece == ROOK && m.from_colour == colour && m.from == corner)
    &&& !(m.to_piece == ROOK && m.to_colour == colour && m.to == corner)
}

/// Both grids after applying `m`: the en-passant victim is removed first,
/// then the moving piece lands on `to` and leaves `from`, then a castling
/// rook is relocated.
pub open spec fn grids_after_make(b: BoardModel, m: Move) -> (Seq<i8>, Seq<i8>) {
    let p0 = if ep_capture_fires(b.ep, m) {
        b.pieces.update(sq_idx(b.ep->Some_0), EMPTY)
    } else {
        b.pieces
    };
    let c0 = if ep_capture_fires(b.ep, m) {
        b.colours.update(sq_idx(b.ep->Some_0), EMPTY)
    } else {
        b.colours
    };
    let p1 = p0.update(sq_idx(m.to), placed_piece(m)).update(sq_idx(m.from), EMPTY);
    let c1 = c0.update(sq_idx(m.to), m.from_colour).update(sq_idx(m.from), EMPTY);
    match m.castle_from_to_square {
        Some(ft) => (
            p1.update(sq_idx(ft.1), ROOK).update(sq_idx(ft.0), EMPTY),
            c1.update(sq_idx(ft.1), m.from_colour).update(sq_idx(ft.0), EMPTY),
        ),
        None => (p1, c1),
    }
}

/// The metadata snapshot `make_move` saves for `un_make_move`.
pub open spec fn saved_record(b: BoardModel) -> PlyData {
    PlyData {
        ply: b.ply as i32,
        side_to_move: b.side,
        can_castle_a1: b.castle_a1,
        can_castle_a8: b.castle_a8,
        can_castle_h1: b.castle_h1,
        can_castle_h8: b.castle_h8,
        en_passant_location: b.ep,
    }
}

/// The full effect of `make_move` on the model.
pub open spec fn spec_make_move(b: BoardModel, m: Move) -> BoardModel {
    let grids = grids_after_make(b, m);
    let new_side = flip_side(b.side);
    BoardModel {
        pieces: grids.0,
        colours: grids.1,
        castle_a1: right_after(b.castle_a1, m, (7, 0), WHITE),
        castle_h1: right_after(b.castle_h1, m, (7, 7), WHITE),
        castle_a8: right_after(b.castle_a8, m, (0, 0), BLACK),
        castle_h8: right_after(b.castle_h8, m, (0, 7), BLACK),
        ep: if m.en_passant {
            Some(m.to)
        } else {
            None
        },
        ply: b.ply + 1,
        side: new_side,
        hashes: b.hashes.push(spec_hash(grids.0, grids.1, new_side)),
        records: b.records.push(saved_record(b)),
        moves: b.moves.push(crate::moves::move_core(m)),
    }
}

/// Applying a move reads only its core: two moves that differ in nothing
/// but their engine-only fields drive the board to the same state.
pub proof fn lemma_make_move_core(b: BoardModel, m1: Move, m2: Move)
    requires
        crate::moves::move_core(m1) == crate::moves::move_core(m2),
    ensures
        spec_make_move(b, m1) == spec_make_move(b, m2),
{
    assert(m1.from == m2.from && m1.to == m2.to && m1.from_piece == m2.from_piece
        && m1.from_colour == m2.from_colour && m1.to_piece == m2.to_piece && m1.to_colour
        == m2.to_colour && m1.promotion_to == m2.promotion_to && m1.en_passant == m2.en_passant
        && m1.castle_from_to_square == m2.castle_from_to_square
        && m1.castling_intermediary_square == m2.castling_intermediary_square);
    assert(grids_after_make(b, m1) == grids_after_make(b, m2));
    assert(spec_make_move(b, m1) =~= spec_make_move(b, m2));
}

/// The full effect of `un_make_move` on the model.
pub open spec fn spec_unmake_move(b: BoardModel, m: Move) -> BoardModel {
    let p1 = b.pieces.update(sq_idx(m.to), m.to_piece).update(sq_idx(m.from), m.from_piece);
    let c1 = b.colours.update(sq_idx(m.to), m.to_colour).update(sq_idx(m.from), m.from_colour);
    let grids = match m.castle_from_to_square {
        Some(ft) => (
            p1.update(sq_idx(ft.0), ROOK).update(sq_idx(ft.1), EMPTY),
            c1.update(sq_idx(ft.0), m.from_colour).update(sq_idx(ft.1), EMPTY),
        ),
        None => (p1, c1),
    };
    let enemy = b.side;
    let restored = if b.records.len() > 0 {
        b.records.last()
    } else {
        PlyData {
            ply: (b.ply - 1) as i32,
            side_to_move: flip_side(b.side),
            can_castle_a1: b.castle_a1,
            can_castle_a8: b.castle_a8,
            can_castle_h1: b.castle_h1,
            can_castle_h8: b.castle_h8,
            en_passant_location: b.ep,
        }
    };
    let p2 = if ep_capture_fires(restored.en_passant_location, m) {
        grids.0.update(sq_idx(restored.en_passant_location->Some_0), PAWN)
    } else {
        grids.0
    };
    let c2 = if ep_capture_fires(restored.en_passant_location, m) {
        grids.1.update(sq_idx(restored.en_passant_location->Some_0), enemy)
    } else {
        grids.1
    };
    BoardModel {
        pieces: p2,
        colours: c2,
        castle_a1: restored.can_castle_a1,
        castle_a8: restored.can_castle_a8,
        castle_h1: restored.can_castle_h1,
        castle_h8: restored.can_castle_h8,
        ep: restored.en_passant_location,
        ply: restored.ply as int,
        side: restored.side_to_move,
        hashes: if b.hashes.len() > 0 {
            b.hashes.drop_last()
        } else {
            b.hashes
        },
        records: if b.records.len() > 0 {
            b.records.drop_last()
        } else {
            b.records
        },
        moves: if b.moves.len() > 0 {
            b.moves.drop_last()
        } else {
            b.moves
        },
    }
}

/// All squares a move touches lie on the board.
pub open spec fn move_on_board(m: Move) -> bool {
    &&& on_board(m.from)
    &&& on_board(m.to)
    &&& (m.castle_from_to_square is Some ==> on_board(m.castle_from_to_square->Some_0.0)
        && on_board(m.castle_from_to_square->Some_0.1))
}

/// All piece and colour fields of the move hold legal codes.
pub open spec fn move_vals(m: Move) -> bool {
    &&& 0 <= m.from_piece <= 6
    &&& 0 <= m.to_piece <= 6
    &&& (m.from_colour == EMPTY || m.from_colour == WHITE || m.from_colour == BLACK)
    &&& (m.to_colour == EMPTY || m.to_colour == WHITE || m.to_colour == BLACK)
    &&& (m.promotion_to is Some ==> KNIGHT <= m.promotion_to->0 <= QUEEN)
}

/// A move that agrees with the board it was generated from, for a given
/// moving side: its piece fields repeat what the grids hold, and the
/// special-move squares carry what the special-move handling expects. Every
/// move the generator emits satisfies this.
pub open spec fn move_fits(b: BoardModel, side: i8, m: Move) -> bool {
    &&& move_on_board(m)
    &&& move_vals(m)
    &&& m.from != m.to
    &&& piece_at(b, m.from) == m.from_piece
    &&& colour_at(b, m.from) == m.from_colour
    &&& piece_at(b, m.to) == m.to_piece
    &&& colour_at(b, m.to) == m.to_colour
    &&& m.from_piece != EMPTY
    &&& m.from_colour == side
    &&& m.to_colour != side
    &&& (m.promotion_to is Some ==> m.from_piece == PAWN)
    &&& (m.castling_intermediary_square is Some ==> on_board(m.castling_intermediary_square->Some_0))
    &&& (m.castle_from_to_square is Some ==> {
        let ft = m.castle_from_to_square->Some_0;
        &&& m.from_piece == KING
        &&& m.to_piece == EMPTY
        &&& piece_at(b, ft.0) == ROOK
        &&& colour_at(b, ft.0) == m.from_colour
        &&& piece_at(b, ft.1) == EMPTY
        &&& colour_at(b, ft.1) == EMPTY
        &&& ft.0 != m.from
        &&& ft.0 != m.to
        &&& ft.1 != m.from
        &&& ft.1 != m.to
        &&& ft.0 != ft.1
    })
    &&& (ep_capture_fires(b.ep, m) ==> {
        let e = b.ep->Some_0;
        &&& piece_at(b, e) == PAWN
        &&& colour_at(b, e) == flip_side(side)
        &&& e != m.from
        &&& e != m.to
    })
}

/// A move that agrees with the board and moves the side to move.
pub open spec fn move_ok(b: BoardModel, m: Move) -> bool {
    move_fits(b, b.side, m)
}

/// Distinct on-board squares have distinct row-major indices.
pub proof fn lemma_sq_idx_injective(a: (usize, usize), b: (usize, usize))
    requires
        on_board(a),
        on_board(b),
        a != b,
    ensures
        sq_idx(a) != sq_idx(b),
{
}

/// Unmaking a move that was just made restores the board exactly: grids,
/// castling rights, en-passant state, side to move, ply, hash history and
/// undo stack. This is the reversibility contract the whole search rests on.
pub proof fn lemma_make_unmake(b: BoardModel, m: Move)
    requires
        board_dims(b),
        ep_on_board(b.ep),
        i32::MIN <= b.ply < i32::MAX,
        move_ok(b, m),
    ensures
        spec_unmake_move(spec_make_move(b, m), m) == b,
{
    let b1 = spec_make_move(b, m);
    let b2 = spec_unmake_move(b1, m);
    assert(b1.records.last() == saved_record(b));
    assert(b1.records.len() > 0);
    lemma_sq_idx_injective(m.from, m.to);
    if m.castle_from_to_square is Some {
        let ft = m.castle_from_to_square->Some_0;
        lemma_sq_idx_injective(ft.0, m.from);
        lemma_sq_idx_injective(ft.0, m.to);
        lemma_sq_idx_injective(ft.1, m.from);
        lemma_sq_idx_injective(ft.1, m.to);
        lemma_sq_idx_injective(ft.0, ft.1);
    }
    if ep_capture_fires(b.ep, m) {
        let e = b.ep->Some_0;
        lemma_sq_idx_injective(e, m.from);
        lemma_sq_idx_injective(e, m.to);
        if m.castle_from_to_square is Some {
            let ft = m.castle_from_to_square->Some_0;
            lemma_sq_idx_injective(e, ft.0);
            lemma_sq_idx_injective(e, ft.1);
        }
    }
    assert(b2.pieces =~= b.pieces);
    assert(b2.colours =~= b.colours);
    assert(b2.hashes =~= b.hashes);
    assert(b2.records =~= b.records);
    assert(b2.moves =~= b.moves);
    assert(b2 =~= b);
}

// ---------------------------------------------------------------------------
// Scanning specs: first king square in row-major order.
// ---------------------------------------------------------------------------

/// Index of the first square at or after `i` holding a king of `side`, or 64.
pub open spec fn first_king_from(b: BoardModel, side: i8, i: int) -> int
    decreases 64 - i,
{
    if i < 0 || i >= 64 {
        64
    } else if b.pieces[i] == KING && b.colours[i] == side {
        i
    } else {
        first_king_from(b, side, i + 1)
    }
}

impl Board {
    /// Appends the hash of the current position to the history.
    fn add_hash_of_current_position(&mut self)
        requires
            board_dims(old(self)@),
            forall|i: int| 0 <= i < 64 ==> 0 <= #[trigger] old(self)@.pieces[i],
            forall|i: int| 0 <= i < 64 ==> 0 <= #[trigger] old(self)@.colours[i],
            0 <= old(self).side_to_move,
        ensures
            final(self)@ == (BoardModel {
                hashes: old(self)@.hashes.push(
                    spec_hash(old(self)@.pieces, old(self)@.colours, old(self)@.side),
                ),
                ..old(self)@
            }),
    {
        let h = self.hash_board_state();
        self.hash_of_previous_positions.push(h);
    }

    /// The position fingerprint: piece placement, colour placement and side
    /// to move folded into one value. Castling rights and the en-passant
    /// state are not part of the fingerprint.
    pub fn hash_board_state(&self) -> (h: u64)
        requires
            board_dims(self@),
            forall|i: int| 0 <= i < 64 ==> 0 <= #[trigger] self@.pieces[i],
            forall|i: int| 0 <= i < 64 ==> 0 <= #[trigger] self@.colours[i],
            0 <= self.side_to_move,
        ensures
            h == spec_hash(self@.pieces, self@.colours, self@.side),
    {
        let mut h: u64 = 5381;
        let mut i: usize = 0;
        while i < 64
            invariant
                board_dims(self@),
                forall|j: int| 0 <= j < 64 ==> 0 <= #[trigger] self@.pieces[j],
                i <= 64,
                h == hash_cells(self@.pieces, 5381u64, i as int),
                h < 0x1000_0000_0000,
            decreases 64 - i,
        {
            h = ((h * 131) + (self.board_array[i] as u64)) % 0x1000_0000_0000;
            i = i + 1;
        }
        let ghost h_mid = h;
        let mut i: usize = 0;
        while i < 64
            invariant
                board_dims(self@),
                forall|j: int| 0 <= j < 64 ==> 0 <= #[trigger] self@.colours[j],
                i <= 64,
                h == hash_cells(self@.colours, h_mid, i as int),
                h < 0x1000_0000_0000,
                h_mid == hash_cells(self@.pieces, 5381u64, 64),
            decreases 64 - i,
        {
            h = ((h * 131) + (self.colour_array[i] as u64)) % 0x1000_0000_0000;
            i = i + 1;
        }
        h = ((h * 131) + (self.side_to_move as u64)) % 0x1000_0000_0000;
        h
    }

    /// True when the current position has already occurred at least three
    /// times (counting the occurrences recorded in the history).
    pub fn has_positions_repeated(&self) -> (r: bool)
        requires
            board_dims(self@),
            forall|i: int| 0 <= i < 64 ==> 0 <= #[trigger] self@.pieces[i],
            forall|i: int| 0 <= i < 64 ==> 0 <= #[trigger] self@.colours[i],
            0 <= self.side_to_move,
        ensures
            r == (hash_count(
                self@.hashes,
                spec_hash(self@.pieces, self@.colours, self@.side),
            ) >= 3),
    {
        let current_hash = self.hash_board_state();
        let mut count: usize = 0;
        let mut i: usize = 0;
        while i < self.hash_of_previous_positions.len()
            invariant
                i <= self@.hashes.len(),
                count <= i,
                count == hash_count(self@.hashes.subrange(0, i as int), current_hash),
            decreases self@.hashes.len() - i,
        {
            proof {
                assert(self@.hashes.subrange(0, i + 1).drop_last() =~= self@.hashes.subrange(
                    0,
                    i as int,
                ));
                assert(self@.hashes.subrange(0, i + 1).last() == self@.hashes[i as int]);
            }
            if self.hash_of_previous_positions[i] == current_hash {
                count = count + 1;
            }
            i = i + 1;
        }
        proof {
            assert(self@.hashes.subrange(0, self@.hashes.len() as int) =~= self@.hashes);
        }
        count >= 3
    }

    /// Where the first king of `side` stands, scanning row-major; `None`
    /// exactly when no such king is on the board.
    pub fn get_king_location(&self, side: i8) -> (r: Option<(usize, usize)>)
        requires
            board_dims(self@),
        ensures
            r is Some <==> has_king(self@, side),
            r is Some ==> {
                let l = r->Some_0;
                &&& on_board(l)
                &&& sq_idx(l) == first_king_from(self@, side, 0)
                &&& piece_at(self@, l) == KING
                &&& colour_at(self@, l) == side
            },
    {
        let mut i: usize = 0;
        while i < 64
            invariant
                board_dims(self@),
                i <= 64,
                first_king_from(self@, side, 0) == first_king_from(self@, side, i as int),
                forall|j: int|
                    0 <= j < i ==> !(#[trigger] self@.pieces[j] == KING && self@.colours[j]
                        == side),
            decreases 64 - i,
        {
            if self.board_array[i] == KING && self.colour_array[i] == side {
                return Some((i / 8, i % 8));
            }
            i = i + 1;
        }
        None
    }

    /// True when some square holds the given piece kind in the given colour.
    pub fn is_piece_type_on_board_for_side(&self, piece: i8, colour: i8) -> (r: bool)
        requires
            board_dims(self@),
        ensures
            r == exists|i: int|
                0 <= i < 64 && #[trigger] self@.pieces[i] == piece && self@.colours[i] == colour,
    {
        let mut i: usize = 0;
        while i < 64
            invariant
                board_dims(self@),
                i <= 64,
                forall|j: int|
                    0 <= j < i ==> !(#[trigger] self@.pieces[j] == piece && self@.colours[j]
                        == colour),
            decreases 64 - i,
        {
            if self.board_array[i] == piece && self.colour_array[i] == colour {
                return true;
            }
            i = i + 1;
        }
        false
    }


    /// Relocates the pieces for `m`: removes an en-passant victim, places
    /// the moving (or promotion) piece, clears the source square, and moves
    /// a castling rook. Only the two grids change.
    fn apply_move_to_grids(&mut self, m: &Move)
        requires
            board_dims(old(self)@),
            ep_on_board(old(self)@.ep),
            move_on_board(*m),
        ensures
            final(self)@ == (BoardModel {
                pieces: grids_after_make(old(self)@, *m).0,
                colours: grids_after_make(old(self)@, *m).1,
                ..old(self)@
            }),
    {
        // En passant: a pawn moving diagonally onto an empty square in the
        // recorded column captures the pawn standing on the recorded square.
        match self.en_passant_location {
            Some(e) => {
                let dist = if e.1 >= m.from.1 {
                    e.1 - m.from.1
                } else {
                    m.from.1 - e.1
                };
                if m.to.1 == e.1 && m.from_piece == PAWN && m.to_piece == EMPTY && dist == 1
                    && e.0 == m.from.0 {
                    self.set_piece_and_colour(e, EMPTY, EMPTY);
                }
            },
            None => {},
        }
        // Place the piece (promoting when asked) and clear the source.
        let placed = match m.promotion_to {
            Some(p) => p,
            None => m.from_piece,
        };
        self.set_piece_and_colour(m.to, placed, m.from_colour);
        self.set_piece_and_colour(m.from, EMPTY, EMPTY);
        // Castling: the king has moved above; relocate the rook.
        match m.castle_from_to_square {
            Some(ft) => {
                self.set_piece_and_colour(ft.1, ROOK, m.from_colour);
                self.set_piece_and_colour(ft.0, EMPTY, EMPTY);
            },
            None => {},
        }
    }

    /// Updates the four castling-rights flags for `m`: a right is revoked
    /// when its king moves, when the rook leaves its corner, or when the
    /// rook is captured on its corner.
    fn update_castle_rights(&mut self, m: &Move)
        ensures
            final(self)@ == (BoardModel {
                castle_a1: right_after(old(self)@.castle_a1, *m, (7, 0), WHITE),
                castle_h1: right_after(old(self)@.castle_h1, *m, (7, 7), WHITE),
                castle_a8: right_after(old(self)@.castle_a8, *m, (0, 0), BLACK),
                castle_h8: right_after(old(self)@.castle_h8, *m, (0, 7), BLACK),
                ..old(self)@
            }),
    {
        let king_moved_white = m.from_piece == KING && m.from_colour == WHITE;
        let king_moved_black = m.from_piece == KING && m.from_colour == BLACK;
        let rook_left = m.from_piece == ROOK;
        let rook_taken = m.to_piece == ROOK;
        self.can_castle_a1 = self.can_castle_a1 && !king_moved_white && !(rook_left
            && m.from_colour == WHITE && m.from.0 == 7 && m.from.1 == 0) && !(rook_taken
            && m.to_colour == WHITE && m.to.0 == 7 && m.to.1 == 0);
        self.can_castle_h1 = self.can_castle_h1 && !king_moved_white && !(rook_left
            && m.from_colour == WHITE && m.from.0 == 7 && m.from.1 == 7) && !(rook_taken
            && m.to_colour == WHITE && m.to.0 == 7 && m.to.1 == 7);
        self.can_castle_a8 = self.can_castle_a8 && !king_moved_black && !(rook_left
            && m.from_colour == BLACK && m.from.0 == 0 && m.from.1 == 0) && !(rook_taken
            && m.to_colour == BLACK && m.to.0 == 0 && m.to.1 == 0);
        self.can_castle_h8 = self.can_castle_h8 && !king_moved_black && !(rook_left
            && m.from_colour == BLACK && m.from.0 == 0 && m.from.1 == 7) && !(rook_taken
            && m.to_colour == BLACK && m.to.0 == 0 && m.to.1 == 7);
    }

    /// Applies a move: relocates the pieces (handling promotion, en passant
    /// and castling), updates the castling rights and the en-passant state,
    /// flips the side to move, appends the new position hash and saves an
    /// undo record. The move is not validated; the caller chooses what to
    /// apply.
    #[verifier::rlimit(100)]
    pub fn make_move(&mut self, move_to_do: &Move)
        requires
            board_dims(old(self)@),
            cells_wf(old(self)@),
            ep_on_board(old(self)@.ep),
            move_on_board(*move_to_do),
            move_vals(*move_to_do),
            0 <= old(self).side_to_move <= 2,
            old(self).ply < i32::MAX,
        ensures
            final(self)@ == spec_make_move(old(self)@, *move_to_do),
    {
        self.move_list.push(crate::moves::to_move_core(move_to_do));
        self.ply_record.push(
            PlyData {
                ply: self.ply,
                side_to_move: self.side_to_move,
                en_passant_location: self.en_passant_location,
                can_castle_a1: self.can_castle_a1,
                can_castle_a8: self.can_castle_a8,
                can_castle_h1: self.can_castle_h1,
                can_castle_h8: self.can_castle_h8,
            },
        );
        self.apply_move_to_grids(move_to_do);
        // A double push records the new en-passant opportunity; any other
        // move clears it.
        if move_to_do.en_passant {
            self.en_passant_location = Some(move_to_do.to);
        } else {
            self.en_passant_location = None;
        }
        self.update_castle_rights(move_to_do);
        self.side_to_move = if self.side_to_move == WHITE {
            BLACK
        } else {
            WHITE
        };
        proof {
            assert(forall|i: int| 0 <= i < 64 ==> 0 <= #[trigger] self@.pieces[i]);
            assert(forall|i: int| 0 <= i < 64 ==> 0 <= #[trigger] self@.colours[i]);
        }
        self.add_hash_of_current_position();
        self.ply = self.ply + 1;
        proof {
            assert(self@ =~= spec_make_move(old(self)@, *move_to_do));
        }
    }

    /// Reverts a move made by `make_move`: restores both squares from the
    /// move's own fields, puts a castling rook back, drops the last hash and
    /// undo record, restores the saved metadata, and returns an en-passant
    /// victim to its square.
    #[verifier::rlimit(100)]
    pub fn un_make_move(&mut self, chess_move: &Move)
        requires
            board_dims(old(self)@),
            move_on_board(*chess_move),
            old(self).ply > i32::MIN,
        ensures
            final(self)@ == spec_unmake_move(old(self)@, *chess_move),
    {
        self.move_list.pop();
        self.set_piece_and_colour(chess_move.to, chess_move.to_piece, chess_move.to_colour);
        self.set_piece_and_colour(chess_move.from, chess_move.from_piece, chess_move.from_colour);
        // Put a castling rook back on its corner.
        match chess_move.castle_from_to_square {
            Some(ft) => {
                self.set_piece_and_colour(ft.0, ROOK, chess_move.from_colour);
                self.set_piece_and_colour(ft.1, EMPTY, EMPTY);
            },
            None => {},
        }
        self.hash_of_previous_positions.pop();
        self.ply = self.ply - 1;
        let enemy_colour = self.side_to_move;
        self.side_to_move = if self.side_to_move == WHITE {
            BLACK
        } else {
            WHITE
        };
        // Restore the metadata saved when the move was made.
        if self.ply_record.len() > 0 {
            let prev = self.ply_record[self.ply_record.len() - 1];
            self.ply = prev.ply;
            self.side_to_move = prev.side_to_move;
            self.can_castle_a1 = prev.can_castle_a1;
            self.can_castle_a8 = prev.can_castle_a8;
            self.can_castle_h1 = prev.can_castle_h1;
            self.can_castle_h8 = prev.can_castle_h8;
            self.en_passant_location = prev.en_passant_location;
        }
        self.ply_record.pop();
        // If the move was an en-passant capture, the captured pawn returns.
        match self.en_passant_location {
            Some(e) => {
                if e.0 < 8 && e.1 < 8 {
                    let dist = if e.1 >= chess_move.from.1 {
                        e.1 - chess_move.from.1
                    } else {
                        chess_move.from.1 - e.1
                    };
                    if chess_move.to.1 == e.1 && chess_move.from_piece == PAWN
                        && chess_move.to_piece == EMPTY && dist == 1 && e.0 == chess_move.from.0 {
                        self.set_piece_and_colour(e, PAWN, enemy_colour);
                    }
                }
            },
            None => {},
        }
        proof {
            let m = *chess_move;
            let b0 = old(self)@;
            let b2 = spec_unmake_move(b0, m);
            assert(self@.pieces =~= b2.pieces);
            assert(self@.colours =~= b2.colours);
            assert(self@.hashes == b2.hashes);
            assert(self@.records == b2.records);
            assert(self@.moves == b2.moves);
            assert(self@ =~= b2);
        }
    }
}

// ---------------------------------------------------------------------------
// Facts the search relies on: applying a move keeps the board well formed,
// keeps the kings on the board, and every capture shrinks the board.
// ---------------------------------------------------------------------------

/// The well-formedness the inner search maintains; it does not insist on
/// kings, since the raw negamax explores king captures before scoring them.
pub open spec fn board_search_wf(b: BoardModel) -> bool {
    &&& board_dims(b)
    &&& cells_wf(b)
    &&& ep_on_board(b.ep)
    &&& (b.side == WHITE || b.side == BLACK)
}

/// How many squares hold a piece.
pub open spec fn occ_upto(p: Seq<i8>, n: int) -> nat
    decreases n,
{
    if n <= 0 {
        0
    } else {
        occ_upto(p, n - 1) + if p[n - 1] == EMPTY {
            0nat
        } else {
            1nat
        }
    }
}

pub open spec fn occupied(b: BoardModel) -> nat {
    occ_upto(b.pieces, 64)
}

/// Updating one cell changes the count by that cell's change alone.
proof fn lemma_occ_update(p: Seq<i8>, j: int, v: i8, n: int)
    requires
        0 <= j < p.len(),
        n <= p.len(),
    ensures
        occ_upto(p.update(j, v), n) == if j < n {
            occ_upto(p, n) - (if p[j] == EMPTY {
                0int
            } else {
                1int
            }) + (if v == EMPTY {
                0int
            } else {
                1int
            })
        } else {
            occ_upto(p, n) as int
        },
    decreases n,
{
    if n > 0 {
        lemma_occ_update(p, j, v, n - 1);
    }
}


/// No more squares are occupied than exist.
pub proof fn lemma_occ_bound(p: Seq<i8>, n: int)
    ensures
        occ_upto(p, n) <= (if n >= 0 { n } else { 0 }),
    decreases n,
{
    if n > 0 {
        lemma_occ_bound(p, n - 1);
    }
}

/// Applying a capture removes exactly one piece from the board.
pub proof fn lemma_make_decreases_occupied(b: BoardModel, m: Move)
    requires
        board_dims(b),
        move_ok(b, m),
        m.to_piece != EMPTY,
    ensures
        occupied(spec_make_move(b, m)) == occupied(b) - 1,
{
    let b1 = spec_make_move(b, m);
    lemma_sq_idx_injective(m.from, m.to);
    assert(!ep_capture_fires(b.ep, m));
    assert(m.castle_from_to_square is None);
    let p1 = b.pieces.update(sq_idx(m.to), placed_piece(m));
    let p2 = p1.update(sq_idx(m.from), EMPTY);
    assert(b1.pieces == p2);
    lemma_occ_update(b.pieces, sq_idx(m.to), placed_piece(m), 64);
    lemma_occ_update(p1, sq_idx(m.from), EMPTY, 64);
    assert(p1[sq_idx(m.from)] == m.from_piece);
}

/// Applying a move keeps the board dimensions, the cell invariants, the
/// en-passant bounds and the side-to-move codes.
pub proof fn lemma_make_preserves_search_wf(b: BoardModel, m: Move)
    requires
        board_search_wf(b),
        move_on_board(m),
        move_vals(m),
        m.from_piece != EMPTY,
        m.from_colour == b.side,
    ensures
        board_search_wf(spec_make_move(b, m)),
{
    let b1 = spec_make_move(b, m);
    assert(board_dims(b1));
    assert forall|i: int| 0 <= i < 64 implies 0 <= #[trigger] b1.pieces[i] <= 6 by {
        assert(0 <= b.pieces[i] <= 6);
    }
    assert forall|i: int|
        0 <= i < 64 implies (#[trigger] b1.colours[i] == EMPTY || b1.colours[i] == WHITE
            || b1.colours[i] == BLACK) by {
        assert(b.colours[i] == EMPTY || b.colours[i] == WHITE || b.colours[i] == BLACK);
    }
    assert forall|i: int|
        0 <= i < 64 implies ((#[trigger] b1.pieces[i] == EMPTY) <==> b1.colours[i] == EMPTY) by {
        assert((b.pieces[i] == EMPTY) <==> b.colours[i] == EMPTY);
    }
}

/// Applying a move never removes the moving side's own king.
pub proof fn lemma_make_preserves_mover_king(b: BoardModel, m: Move)
    requires
        board_dims(b),
        move_ok(b, m),
        has_king(b, b.side),
    ensures
        has_king(spec_make_move(b, m), b.side),
{
    let b1 = spec_make_move(b, m);
    let side = b.side;
    lemma_sq_idx_injective(m.from, m.to);
    if m.castle_from_to_square is Some {
        let ft = m.castle_from_to_square->Some_0;
        lemma_sq_idx_injective(ft.0, m.from);
        lemma_sq_idx_injective(ft.0, m.to);
        lemma_sq_idx_injective(ft.1, m.from);
        lemma_sq_idx_injective(ft.1, m.to);
        lemma_sq_idx_injective(ft.0, ft.1);
    }
    if ep_capture_fires(b.ep, m) {
        let e = b.ep->Some_0;
        lemma_sq_idx_injective(e, m.from);
        lemma_sq_idx_injective(e, m.to);
    }
    if m.from_piece == KING && m.from_colour == side {
        assert(b1.pieces[sq_idx(m.to)] == KING && b1.colours[sq_idx(m.to)] == side);
        assert(0 <= sq_idx(m.to) < 64);
    } else {
        let i = choose|i: int| 0 <= i < 64 && #[trigger] b.pieces[i] == KING && b.colours[i] == side;
        assert(i != sq_idx(m.from));
        assert(i != sq_idx(m.to));
        assert(b1.pieces[i] == KING && b1.colours[i] == side);
    }
}

/// Applying a move that does not capture a king keeps both kings on the
/// board.
pub proof fn lemma_make_preserves_king(b: BoardModel, m: Move, side: i8)
    requires
        board_dims(b),
        move_ok(b, m),
        m.to_piece != KING,
        has_king(b, side),
    ensures
        has_king(spec_make_move(b, m), side),
{
    let b1 = spec_make_move(b, m);
    lemma_sq_idx_injective(m.from, m.to);
    if m.castle_from_to_square is Some {
        let ft = m.castle_from_to_square->Some_0;
        lemma_sq_idx_injective(ft.0, m.from);
        lemma_sq_idx_injective(ft.0, m.to);
        lemma_sq_idx_injective(ft.1, m.from);
        lemma_sq_idx_injective(ft.1, m.to);
        lemma_sq_idx_injective(ft.0, ft.1);
    }
    if ep_capture_fires(b.ep, m) {
        let e = b.ep->Some_0;
        lemma_sq_idx_injective(e, m.from);
        lemma_sq_idx_injective(e, m.to);
    }
    if m.from_piece == KING && m.from_colour == side {
        assert(b1.pieces[sq_idx(m.to)] == KING && b1.colours[sq_idx(m.to)] == side);
        assert(0 <= sq_idx(m.to) < 64);
    } else {
        let i = choose|i: int| 0 <= i < 64 && #[trigger] b.pieces[i] == KING && b.colours[i] == side;
        assert(i != sq_idx(m.from));
        assert(i != sq_idx(m.to));
        assert(b1.pieces[i] == KING && b1.colours[i] == side);
    }
}

// ---------------------------------------------------------------------------
// Reading moves from coordinate notation.
// ---------------------------------------------------------------------------

/// A file letter `a`..`h`.
pub open spec fn is_file_byte(b: u8) -> bool {
    97 <= b <= 104
}

/// A rank digit `1`..`8`.
pub open spec fn is_rank_byte(b: u8) -> bool {
    49 <= b <= 56
}

/// The byte-shape a plain coordinate move must have: four or five bytes,
/// file-rank-file-rank with the files in `a`..`h` and the ranks in `1`..`8`,
/// and a promotion letter naming one of the four promotion pieces.
pub open spec fn notation_shape_ok(bytes: Seq<u8>) -> bool {
    &&& 4 <= bytes.len() <= 5
    &&& is_file_byte(bytes[0])
    &&& is_rank_byte(bytes[1])
    &&& is_file_byte(bytes[2])
    &&& is_rank_byte(bytes[3])
    &&& (bytes.len() == 5 ==> (bytes[4] == 110 || bytes[4] == 98 || bytes[4] == 114 || bytes[4]
        == 113))
}

pub open spec fn is_token(bytes: Seq<u8>, b0: u8, b1: u8, b2: u8, b3: u8) -> bool {
    bytes.len() == 4 && bytes[0] == b0 && bytes[1] == b1 && bytes[2] == b2 && bytes[3] == b3
}

/// Which castling move a token denotes, given the rights still held:
/// 1 white kingside, 2 white queenside, 3 black kingside, 4 black
/// queenside, 0 none.
pub open spec fn castle_token_kind(b: BoardModel, bytes: Seq<u8>) -> int {
    if is_token(bytes, 101, 49, 103, 49) && b.castle_h1 {
        1
    } else if is_token(bytes, 101, 49, 99, 49) && b.castle_a1 {
        2
    } else if is_token(bytes, 101, 56, 103, 56) && b.castle_h8 {
        3
    } else if is_token(bytes, 101, 56, 99, 56) && b.castle_a8 {
        4
    } else {
        0
    }
}

/// The castling move a token denotes: king from its starting square two
/// files towards the rook, rook over the king, transit square recorded.
pub open spec fn castle_token_move(b: BoardModel, kind: int) -> Move {
    let fr: usize = if kind <= 2 {
        7
    } else {
        0
    };
    let to_col: usize = if kind == 1 || kind == 3 {
        6
    } else {
        2
    };
    let rook_from: usize = if kind == 1 || kind == 3 {
        7
    } else {
        0
    };
    let rook_to: usize = if kind == 1 || kind == 3 {
        5
    } else {
        3
    };
    crate::movegen::mk_move(
        (fr, 4),
        KING,
        b.side,
        (fr, to_col),
        EMPTY,
        EMPTY,
        None,
        false,
        Some(((fr, rook_from), (fr, rook_to))),
        None,
    )
}

pub open spec fn promo_piece_of_byte(b: u8) -> i8 {
    if b == 110 {
        KNIGHT
    } else if b == 98 {
        BISHOP
    } else if b == 114 {
        ROOK
    } else {
        QUEEN
    }
}

/// The plain move a well-shaped token denotes: squares from the text, piece
/// fields read off the board, the double-push flag set for a two-rank pawn
/// move.
pub open spec fn parsed_move(b: BoardModel, bytes: Seq<u8>) -> Move {
    let from = crate::conversion::loc_of_bytes(bytes[0], bytes[1]);
    let to = crate::conversion::loc_of_bytes(bytes[2], bytes[3]);
    let promo = if bytes.len() == 5 {
        Some(promo_piece_of_byte(bytes[4]))
    } else {
        None
    };
    crate::movegen::mk_move(
        from,
        piece_at(b, from),
        colour_at(b, from),
        to,
        piece_at(b, to),
        colour_at(b, to),
        promo,
        piece_at(b, from) == PAWN && coord_dist(from.0, to.0) == 2,
        None,
        None,
    )
}

impl Board {
    /// Reads a move in coordinate notation (`e2e4`, promotion `e7e8q`, and
    /// the four castling tokens, accepted only while the matching right is
    /// held). The squares are taken from the text and the piece fields from
    /// the board; text of the wrong shape is reported as an error.
    pub fn convert_notation_to_move(&self, chess_move: String) -> (r: Result<Move, String>)
        requires
            board_dims(self@),
        ensures
            ({
                let bytes = vstd::utf8::encode_utf8(chess_move@);
                let kind = castle_token_kind(self@, bytes);
                &&& (kind != 0 ==> r == Ok::<Move, String>(castle_token_move(self@, kind)))
                &&& (kind == 0 && notation_shape_ok(bytes) ==> r == Ok::<Move, String>(
                    parsed_move(self@, bytes),
                ))
                &&& (kind == 0 && !notation_shape_ok(bytes) ==> r is Err)
                &&& (r is Ok ==> move_on_board(r->Ok_0))
            }),
    {
        let bytes = chess_move.as_str().as_bytes();
        let ghost bs = vstd::utf8::encode_utf8(chess_move@);
        proof {
            assert(bytes@ == bs);
        }
        // The four castling tokens, honoured while the right is held.
        if bytes.len() == 4 && bytes[0] == 101 {
            let b1 = bytes[1];
            let b2 = bytes[2];
            let b3 = bytes[3];
            if b1 == 49 && b2 == 103 && b3 == 49 && self.can_castle_h1 {
                return Ok(
                    crate::movegen::build_move(
                        (7, 4),
                        KING,
                        self.side_to_move,
                        (7, 6),
                        EMPTY,
                        EMPTY,
                        None,
                        false,
                        Some(((7, 7), (7, 5))),
                        None,
                    ),
                );
            }
            if b1 == 49 && b2 == 99 && b3 == 49 && self.can_castle_a1 {
                return Ok(
                    crate::movegen::build_move(
                        (7, 4),
                        KING,
                        self.side_to_move,
                        (7, 2),
                        EMPTY,
                        EMPTY,
                        None,
                        false,
                        Some(((7, 0), (7, 3))),
                        None,
                    ),
                );
            }
            if b1 == 56 && b2 == 103 && b3 == 56 && self.can_castle_h8 {
                return Ok(
                    crate::movegen::build_move(
                        (0, 4),
                        KING,
                        self.side_to_move,
                        (0, 6),
                        EMPTY,
                        EMPTY,
                        None,
                        false,
                        Some(((0, 7), (0, 5))),
                        None,
                    ),
                );
            }
            if b1 == 56 && b2 == 99 && b3 == 56 && self.can_castle_a8 {
                return Ok(
                    crate::movegen::build_move(
                        (0, 4),
                        KING,
                        self.side_to_move,
                        (0, 2),
                        EMPTY,
                        EMPTY,
                        None,
                        false,
                        Some(((0, 0), (0, 3))),
                        None,
                    ),
                );
            }
        }
        if bytes.len() < 4 || bytes.len() > 5 {
            return Err(String::from_str("not equal to 4 or 5 characters"));
        }
        let a0 = bytes[0];
        let a1 = bytes[1];
        let a2 = bytes[2];
        let a3 = bytes[3];
        if !(97 <= a0 && a0 <= 104) {
            return Err(String::from_str("first character must be a file letter a-h"));
        }
        if !(49 <= a1 && a1 <= 56) {
            return Err(String::from_str("second character must be a rank digit 1-8"));
        }
        if !(97 <= a2 && a2 <= 104) {
            return Err(String::from_str("third character must be a file letter a-h"));
        }
        if !(49 <= a3 && a3 <= 56) {
            return Err(String::from_str("fourth character must be a rank digit 1-8"));
        }
        let promotion_to: Option<i8> = if bytes.len() == 5 {
            let a4 = bytes[4];
            if a4 == 110 {
                Some(KNIGHT)
            } else if a4 == 98 {
                Some(BISHOP)
            } else if a4 == 114 {
                Some(ROOK)
            } else if a4 == 113 {
                Some(QUEEN)
            } else {
                return Err(String::from_str("fifth character must name a promotion piece"));
            }
        } else {
            None
        };
        let from = (((56 - a1) as usize), ((a0 - 97) as usize));
        let to = (((56 - a3) as usize), ((a2 - 97) as usize));
        let from_piece = self.get_piece(from);
        let from_colour = self.get_piece_colour(from);
        let to_piece = self.get_piece(to);
        let to_colour = self.get_piece_colour(to);
        let row_dist = if from.0 >= to.0 {
            from.0 - to.0
        } else {
            to.0 - from.0
        };
        let en_passant = from_piece == PAWN && row_dist == 2;
        Ok(
            crate::movegen::build_move(
                from,
                from_piece,
                from_colour,
                to,
                to_piece,
                to_colour,
                promotion_to,
                en_passant,
                None,
                None,
            ),
        )
    }

    /// Reads a move from notation, rejects one that names an empty source
    /// square, and applies it. The move is otherwise not validated.
    pub fn make_move_with_notation(&mut self, chess_move: String) -> (r: Result<Move, String>)
        requires
            board_dims(old(self)@),
            cells_wf(old(self)@),
            ep_on_board(old(self)@.ep),
            0 <= old(self).side_to_move <= 2,
            old(self).ply < i32::MAX,
        ensures
            r is Ok ==> final(self)@ == spec_make_move(old(self)@, r->Ok_0),
            r is Err ==> final(self)@ == old(self)@,
            ({
                let bytes = vstd::utf8::encode_utf8(chess_move@);
                let kind = castle_token_kind(old(self)@, bytes);
                &&& (kind != 0 ==> (r is Ok <==> old(self).side_to_move != EMPTY) && (r is Ok
                    ==> r->Ok_0 == castle_token_move(old(self)@, kind)))
                &&& (kind == 0 ==> (r is Ok <==> notation_shape_ok(bytes) && parsed_move(
                    old(self)@,
                    bytes,
                ).from_piece != EMPTY && parsed_move(old(self)@, bytes).from_colour != EMPTY))
                &&& (kind == 0 && r is Ok ==> r->Ok_0 == parsed_move(old(self)@, bytes))
            }),
    {
        let move_to_do_result = self.convert_notation_to_move(chess_move);
        let move_to_do = match move_to_do_result {
            Err(e) => {
                return Err(e);
            },
            Ok(m) => m,
        };
        if move_to_do.from_piece == EMPTY {
            return Err(String::from_str("cannot move empty square"));
        }
        if move_to_do.from_colour == EMPTY {
            return Err(String::from_str("cannot move empty colour"));
        }
        if !(move_to_do.from_piece >= 0 && move_to_do.from_piece <= 6 && move_to_do.to_piece >= 0
            && move_to_do.to_piece <= 6 && (move_to_do.from_colour == WHITE
            || move_to_do.from_colour == BLACK) && (move_to_do.to_colour == EMPTY
            || move_to_do.to_colour == WHITE || move_to_do.to_colour == BLACK)) {
            return Err(String::from_str("squares outside the board's piece codes"));
        }
        self.make_move(&move_to_do);
        Ok(move_to_do)
    }

    /// True when the text names a square and that square holds no piece;
    /// text that names no square is not an empty square.
    pub fn is_square_empty(&self, square: &str) -> (r: bool)
        requires
            board_dims(self@),
        ensures
            r == {
                match crate::conversion::spec_notation_location(square.spec_bytes()) {
                    Some(l) => piece_at(self@, l) == EMPTY,
                    None => false,
                }
            },
    {
        match crate::conversion::convert_notation_to_location(square) {
            Some(c) => self.get_piece(c) == EMPTY,
            None => false,
        }
    }
}

} // verus!
