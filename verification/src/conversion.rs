//! Conversions between the board's typed values and their textual forms:
//! square and move notation, FEN-like position strings, and the
//! piece-square-table lookups.

use vstd::prelude::*;
use crate::board::{Board, on_board};
use crate::constants::{PAWN, KNIGHT, BISHOP, ROOK, QUEEN, KING, WHITE, BLACK, EMPTY};
use crate::constants::{
    EG_KING_TABLE, MG_BISHOP_TABLE, MG_KING_TABLE, MG_KNIGHT_TABLE, MG_PAWN_TABLE, MG_QUEEN_TABLE,
    MG_ROOK_TABLE, spec_pst_eg, spec_pst_mg,
};
use crate::moves::Move;
use vstd::string::StringSliceAdditionalSpecFns;

verus! {

/// Positional bonus of `piece_type` in `colour` standing on `location`,
/// from the middlegame tables.
pub fn get_piece_square_value_mg(location: (usize, usize), piece_type: i8, colour: i8) -> (v: i32)
    requires
        on_board(location),
    ensures
        v == spec_pst_mg(location, piece_type, colour),
{
    let idx: usize = if colour == WHITE {
        location.0 * 8 + location.1
    } else {
        (7 - location.0) * 8 + location.1
    };
    if piece_type == PAWN {
        MG_PAWN_TABLE[idx]
    } else if piece_type == KNIGHT {
        MG_KNIGHT_TABLE[idx]
    } else if piece_type == BISHOP {
        MG_BISHOP_TABLE[idx]
    } else if piece_type == ROOK {
        MG_ROOK_TABLE[idx]
    } else if piece_type == QUEEN {
        MG_QUEEN_TABLE[idx]
    } else if piece_type == KING {
        MG_KING_TABLE[idx]
    } else {
        0
    }
}

/// Positional bonus from the endgame tables: the king has its own table,
/// the rest keep their middlegame values.
pub fn get_piece_square_value_eg(location: (usize, usize), piece_type: i8, colour: i8) -> (v: i32)
    requires
        on_board(location),
    ensures
        v == spec_pst_eg(location, piece_type, colour),
{
    let idx: usize = if colour == WHITE {
        location.0 * 8 + location.1
    } else {
        (7 - location.0) * 8 + location.1
    };
    if piece_type == PAWN {
        MG_PAWN_TABLE[idx]
    } else if piece_type == KNIGHT {
        MG_KNIGHT_TABLE[idx]
    } else if piece_type == BISHOP {
        MG_BISHOP_TABLE[idx]
    } else if piece_type == ROOK {
        MG_ROOK_TABLE[idx]
    } else if piece_type == QUEEN {
        MG_QUEEN_TABLE[idx]
    } else if piece_type == KING {
        EG_KING_TABLE[idx]
    } else {
        0
    }
}

// ---------------------------------------------------------------------------
// Square and move notation.
// ---------------------------------------------------------------------------

/// The letter of a file (board column).
pub open spec fn file_char(c: int) -> char {
    if c == 0 {
        'a'
    } else if c == 1 {
        'b'
    } else if c == 2 {
        'c'
    } else if c == 3 {
        'd'
    } else if c == 4 {
        'e'
    } else if c == 5 {
        'f'
    } else if c == 6 {
        'g'
    } else {
        'h'
    }
}

/// The digit of a rank; board row 0 is rank 8.
pub open spec fn rank_char(r: int) -> char {
    if r == 0 {
        '8'
    } else if r == 1 {
        '7'
    } else if r == 2 {
        '6'
    } else if r == 3 {
        '5'
    } else if r == 4 {
        '4'
    } else if r == 5 {
        '3'
    } else if r == 6 {
        '2'
    } else {
        '1'
    }
}

/// The two characters naming a square.
pub open spec fn square_chars(l: (usize, usize)) -> Seq<char> {
    seq![file_char(l.1 as int), rank_char(l.0 as int)]
}

fn file_str(c: usize) -> (s: &'static str)
    requires
        c < 8,
    ensures
        s@ =~= seq![file_char(c as int)],
{
    proof {
        reveal_strlit("a");
        reveal_strlit("b");
        reveal_strlit("c");
        reveal_strlit("d");
        reveal_strlit("e");
        reveal_strlit("f");
        reveal_strlit("g");
        reveal_strlit("h");
    }
    if c == 0 {
        "a"
    } else if c == 1 {
        "b"
    } else if c == 2 {
        "c"
    } else if c == 3 {
        "d"
    } else if c == 4 {
        "e"
    } else if c == 5 {
        "f"
    } else if c == 6 {
        "g"
    } else {
        "h"
    }
}

fn rank_str(r: usize) -> (s: &'static str)
    requires
        r < 8,
    ensures
        s@ =~= seq![rank_char(r as int)],
{
    proof {
        reveal_strlit("8");
        reveal_strlit("7");
        reveal_strlit("6");
        reveal_strlit("5");
        reveal_strlit("4");
        reveal_strlit("3");
        reveal_strlit("2");
        reveal_strlit("1");
    }
    if r == 0 {
        "8"
    } else if r == 1 {
        "7"
    } else if r == 2 {
        "6"
    } else if r == 3 {
        "5"
    } else if r == 4 {
        "4"
    } else if r == 5 {
        "3"
    } else if r == 6 {
        "2"
    } else {
        "1"
    }
}

/// Appends a square's name to a string.
fn push_square(s: &mut String, l: (usize, usize))
    requires
        on_board(l),
    ensures
        final(s)@ =~= old(s)@ + square_chars(l),
{
    s.append(file_str(l.1));
    s.append(rank_str(l.0));
}

/// Coordinate notation of a from/to pair, with an optional promotion
/// suffix appended verbatim.
pub open spec fn spec_location_notation(
    from: (usize, usize),
    to: (usize, usize),
    promotion: Option<String>,
) -> Seq<char> {
    square_chars(from) + square_chars(to) + match promotion {
        Some(p) => p@,
        None => Seq::empty(),
    }
}

/// Writes a move as coordinate notation (`e2e4`), appending the promotion
/// string when one is given.
pub fn convert_array_location_to_notation(
    from: (usize, usize),
    to: (usize, usize),
    promotion: Option<String>,
) -> (s: String)
    requires
        on_board(from),
        on_board(to),
    ensures
        s@ =~= spec_location_notation(from, to, promotion),
{
    let mut notation_move = String::new();
    push_square(&mut notation_move, from);
    push_square(&mut notation_move, to);
    match promotion {
        Some(p) => {
            notation_move.append(p.as_str());
        },
        None => {},
    }
    notation_move
}

/// The promotion suffix a move's notation carries: one letter for the four
/// promotion pieces, nothing for any other move.
pub open spec fn promo_suffix(m: Move) -> Seq<char> {
    match m.promotion_to {
        Some(p) => {
            if p == 2 {
                seq!['n']
            } else if p == 3 {
                seq!['b']
            } else if p == 4 {
                seq!['r']
            } else if p == 5 {
                seq!['q']
            } else {
                Seq::empty()
            }
        },
        None => Seq::empty(),
    }
}

/// The notation of a move: both square names, exactly four characters,
/// followed by the promotion letter only when the move promotes.
pub open spec fn spec_move_notation(m: Move) -> Seq<char> {
    square_chars(m.from) + square_chars(m.to) + promo_suffix(m)
}

/// Writes a move in coordinate notation: four characters, a fifth only for
/// a promotion.
pub fn convert_move_to_notation(chess_move: &Move) -> (s: String)
    requires
        on_board(chess_move.from),
        on_board(chess_move.to),
    ensures
        s@ =~= spec_move_notation(*chess_move),
{
    proof {
        reveal_strlit("n");
        reveal_strlit("b");
        reveal_strlit("r");
        reveal_strlit("q");
        reveal_strlit("");
    }
    let promotion: &'static str = match chess_move.promotion_to {
        Some(p) => {
            if p == 2 {
                "n"
            } else if p == 3 {
                "b"
            } else if p == 4 {
                "r"
            } else if p == 5 {
                "q"
            } else {
                ""
            }
        },
        None => "",
    };
    let mut s = String::new();
    push_square(&mut s, chess_move.from);
    push_square(&mut s, chess_move.to);
    s.append(promotion);
    proof {
        assert(s@ =~= spec_move_notation(*chess_move));
    }
    s
}

/// Square a two-byte name denotes; callers guard the byte ranges.
pub open spec fn loc_of_bytes(f: u8, r: u8) -> (usize, usize) {
    if 97 <= f <= 104 && 49 <= r <= 56 {
        (((56 - r) as usize), ((f - 97) as usize))
    } else {
        (0, 0)
    }
}

/// The square a piece of text names: `Some` exactly for a file letter
/// `a`..`h` followed by a rank digit `1`..`8`.
pub open spec fn spec_notation_location(bytes: Seq<u8>) -> Option<(usize, usize)> {
    if bytes.len() == 2 && 97 <= bytes[0] <= 104 && 49 <= bytes[1] <= 56 {
        Some(loc_of_bytes(bytes[0], bytes[1]))
    } else {
        None
    }
}

/// Reads a square name (`e4`) into board coordinates; text that names no
/// square is reported as `None`.
pub fn convert_notation_to_location(chess_move: &str) -> (r: Option<(usize, usize)>)
    ensures
        r == spec_notation_location(chess_move.spec_bytes()),
        r is Some ==> on_board(r->Some_0),
{
    let bytes = chess_move.as_bytes();
    if bytes.len() == 2 {
        let f = bytes[0];
        let rk = bytes[1];
        if 97 <= f && f <= 104 && 49 <= rk && rk <= 56 {
            Some((((56 - rk) as usize), ((f - 97) as usize)))
        } else {
            None
        }
    } else {
        None
    }
}

/// The piece a FEN letter denotes, whichever case it is written in.
pub open spec fn spec_alphabetic_piece(c: char) -> i8 {
    if c == 'K' || c == 'k' {
        KING
    } else if c == 'Q' || c == 'q' {
        QUEEN
    } else if c == 'R' || c == 'r' {
        ROOK
    } else if c == 'B' || c == 'b' {
        BISHOP
    } else if c == 'N' || c == 'n' {
        KNIGHT
    } else if c == 'P' || c == 'p' {
        PAWN
    } else {
        -1i8
    }
}

/// Reads a FEN piece letter; unknown letters map to an invalid code.
pub fn convert_alphabetic_to_piece(character: char) -> (p: i8)
    ensures
        p == spec_alphabetic_piece(character),
{
    if character == 'K' || character == 'k' {
        KING
    } else if character == 'Q' || character == 'q' {
        QUEEN
    } else if character == 'R' || character == 'r' {
        ROOK
    } else if character == 'B' || character == 'b' {
        BISHOP
    } else if character == 'N' || character == 'n' {
        KNIGHT
    } else if character == 'P' || character == 'p' {
        PAWN
    } else {
        -1
    }
}

/// FEN writing is not offered yet; the engine's textual output is move
/// notation, so this hands back the empty string.
pub fn convert_board_to_fen(_board: &Board) -> (s: String)
    ensures
        s@.len() == 0,
{
    String::new()
}

// ---------------------------------------------------------------------------
// FEN-like position strings.
// ---------------------------------------------------------------------------

/// The piece a FEN letter byte denotes; other bytes map to an invalid code.
pub open spec fn spec_byte_piece(b: u8) -> i8 {
    if b == 75 || b == 107 {
        KING
    } else if b == 81 || b == 113 {
        QUEEN
    } else if b == 82 || b == 114 {
        ROOK
    } else if b == 66 || b == 98 {
        BISHOP
    } else if b == 78 || b == 110 {
        KNIGHT
    } else if b == 80 || b == 112 {
        PAWN
    } else {
        -1i8
    }
}

fn byte_piece(b: u8) -> (p: i8)
    ensures
        p == spec_byte_piece(b),
{
    if b == 75 || b == 107 {
        KING
    } else if b == 81 || b == 113 {
        QUEEN
    } else if b == 82 || b == 114 {
        ROOK
    } else if b == 66 || b == 98 {
        BISHOP
    } else if b == 78 || b == 110 {
        KNIGHT
    } else if b == 80 || b == 112 {
        PAWN
    } else {
        -1
    }
}

/// Why a position string was rejected: the first field, in reading order,
/// that is not well formed.
#[derive(Debug, Clone, Copy, PartialEq, Eq)]
pub enum FenError {
    FieldCount,
    Placement,
    SideToMove,
    Castling,
    EnPassant,
    HalfmoveClock,
    FullmoveNumber,
}

/// The pieces of a byte string split on spaces, before empty pieces are
/// dropped: one piece per run between spaces, possibly empty.
pub open spec fn split_raw(s: Seq<u8>) -> Seq<Seq<u8>>
    decreases s.len(),
{
    if s.len() == 0 {
        seq![Seq::<u8>::empty()]
    } else {
        let r = split_raw(s.drop_last());
        if s.last() == 32 {
            r.push(Seq::empty())
        } else {
            r.update(r.len() - 1, r[r.len() - 1].push(s.last()))
        }
    }
}

/// The whitespace-separated fields of a position string.
pub open spec fn fen_fields(s: Seq<u8>) -> Seq<Seq<u8>> {
    split_raw(s).filter(|p: Seq<u8>| p.len() > 0)
}

/// One byte of the piece-placement field applied to the scan state: the
/// row and column reached so far, and the grids filled so far.
pub open spec fn place_step(
    st: Option<(int, int, Seq<i8>, Seq<i8>)>,
    b: u8,
) -> Option<(int, int, Seq<i8>, Seq<i8>)> {
    match st {
        None => None,
        Some(t) => {
            if b == 47 {
                if t.1 == 8 && t.0 < 7 {
                    Some((t.0 + 1, 0, t.2, t.3))
                } else {
                    None
                }
            } else if 49 <= b <= 56 {
                if t.1 + (b - 48) <= 8 {
                    Some((t.0, t.1 + (b - 48), t.2, t.3))
                } else {
                    None
                }
            } else {
                let p = spec_byte_piece(b);
                if p >= 1 && t.1 < 8 {
                    let colour: i8 = if 65 <= b <= 90 {
                        WHITE
                    } else {
                        BLACK
                    };
                    Some(
                        (
                            t.0,
                            t.1 + 1,
                            t.2.update(t.0 * 8 + t.1, p),
                            t.3.update(t.0 * 8 + t.1, colour),
                        ),
                    )
                } else {
                    None
                }
            }
        },
    }
}

pub open spec fn place_run(f: Seq<u8>) -> Option<(int, int, Seq<i8>, Seq<i8>)>
    decreases f.len(),
{
    if f.len() == 0 {
        Some((0, 0, Seq::new(64, |i: int| EMPTY), Seq::new(64, |i: int| EMPTY)))
    } else {
        place_step(place_run(f.drop_last()), f.last())
    }
}

/// The grids a placement field denotes, rank 8 first: the scan must end
/// after the last square of the last rank.
pub open spec fn spec_placement(f: Seq<u8>) -> Option<(Seq<i8>, Seq<i8>)> {
    match place_run(f) {
        Some(t) => if t.0 == 7 && t.1 == 8 {
            Some((t.2, t.3))
        } else {
            None
        },
        None => None,
    }
}

/// The side a field denotes: `w` or `b`.
pub open spec fn spec_side_of(f: Seq<u8>) -> Option<i8> {
    if f.len() == 1 && f[0] == 119 {
        Some(WHITE)
    } else if f.len() == 1 && f[0] == 98 {
        Some(BLACK)
    } else {
        None
    }
}

/// The rights a castling field denotes, as (h1, a1, h8, a8): `-` for none,
/// otherwise letters from `KQkq`, each granting its rook's right.
pub open spec fn spec_castling_of(f: Seq<u8>) -> Option<(bool, bool, bool, bool)> {
    if f.len() == 1 && f[0] == 45 {
        Some((false, false, false, false))
    } else if f.len() >= 1 && (forall|i: int|
        0 <= i < f.len() ==> ((#[trigger] f[i]) == 75 || f[i] == 81 || f[i] == 107 || f[i]
            == 113)) {
        Some((f.contains(75), f.contains(81), f.contains(107), f.contains(113)))
    } else {
        None
    }
}

/// The en-passant state a field denotes: `-` for none, else a target
/// square on rank 3 or 6, recorded as the double-pushed pawn's own square.
pub open spec fn spec_ep_of(f: Seq<u8>) -> Option<Option<(usize, usize)>> {
    if f.len() == 1 && f[0] == 45 {
        Some(None)
    } else if f.len() == 2 && 97 <= f[0] <= 104 && f[1] == 51 {
        Some(Some((4, (f[0] - 97) as usize)))
    } else if f.len() == 2 && 97 <= f[0] <= 104 && f[1] == 54 {
        Some(Some((3, (f[0] - 97) as usize)))
    } else {
        None
    }
}

pub open spec fn all_digits(f: Seq<u8>) -> bool {
    forall|i: int| 0 <= i < f.len() ==> 48 <= #[trigger] f[i] <= 57
}

/// The halfmove-clock field: digits; the engine ignores its value.
pub open spec fn spec_clock_ok(f: Seq<u8>) -> bool {
    f.len() >= 1 && all_digits(f)
}

pub open spec fn digits_value(f: Seq<u8>) -> int
    decreases f.len(),
{
    if f.len() == 0 {
        0
    } else {
        digits_value(f.drop_last()) * 10 + (f.last() - 48)
    }
}

/// The fullmove number a field denotes; a number over a million is
/// rejected so that the ply counter stays well inside its range.
pub open spec fn spec_fullmove_of(f: Seq<u8>) -> Option<int> {
    if f.len() >= 1 && all_digits(f) && digits_value(f) <= 1000000 {
        Some(digits_value(f))
    } else {
        None
    }
}

/// A well-formed position string: four to six whitespace-separated fields
/// — placement, side, castling and en passant, optionally followed by the
/// halfmove clock and the fullmove number.
pub open spec fn spec_fen_ok(bytes: Seq<u8>) -> bool {
    let fs = fen_fields(bytes);
    &&& 4 <= fs.len() <= 6
    &&& spec_placement(fs[0]) is Some
    &&& spec_side_of(fs[1]) is Some
    &&& spec_castling_of(fs[2]) is Some
    &&& spec_ep_of(fs[3]) is Some
    &&& (fs.len() >= 5 ==> spec_clock_ok(fs[4]))
    &&& (fs.len() == 6 ==> spec_fullmove_of(fs[5]) is Some)
}

/// The board a well-formed position string denotes: the grids the
/// placement field writes, the side, rights and en-passant state of their
/// fields, the fullmove number as the ply counter (zero when absent), and
/// empty histories.
pub open spec fn spec_fen_model(bytes: Seq<u8>) -> crate::board::BoardModel {
    let fs = fen_fields(bytes);
    let grids = spec_placement(fs[0])->Some_0;
    let rights = spec_castling_of(fs[2])->Some_0;
    crate::board::BoardModel {
        pieces: grids.0,
        colours: grids.1,
        castle_h1: rights.0,
        castle_a1: rights.1,
        castle_h8: rights.2,
        castle_a8: rights.3,
        ep: spec_ep_of(fs[3])->Some_0,
        ply: if fs.len() == 6 {
            spec_fullmove_of(fs[5])->Some_0
        } else {
            0
        },
        side: spec_side_of(fs[1])->Some_0,
        hashes: Seq::empty(),
        records: Seq::empty(),
        moves: Seq::empty(),
    }
}

/// The first field, in reading order, that makes the string malformed.
pub open spec fn spec_fen_error(bytes: Seq<u8>) -> FenError {
    let fs = fen_fields(bytes);
    if !(4 <= fs.len() <= 6) {
        FenError::FieldCount
    } else if spec_placement(fs[0]) is None {
        FenError::Placement
    } else if spec_side_of(fs[1]) is None {
        FenError::SideToMove
    } else if spec_castling_of(fs[2]) is None {
        FenError::Castling
    } else if spec_ep_of(fs[3]) is None {
        FenError::EnPassant
    } else if fs.len() >= 5 && !spec_clock_ok(fs[4]) {
        FenError::HalfmoveClock
    } else {
        FenError::FullmoveNumber
    }
}

/// Splits a byte string on spaces, dropping the empty pieces.
fn split_fields(bytes: &[u8]) -> (r: Vec<Vec<u8>>)
    ensures
        r@.map_values(|v: Vec<u8>| v@) == fen_fields(bytes@),
{
    let mut fields: Vec<Vec<u8>> = Vec::new();
    let mut cur: Vec<u8> = Vec::new();
    let mut i: usize = 0;
    proof {
        assert(bytes@.take(0) =~= Seq::<u8>::empty());
        reveal(Seq::filter);
        assert(fields@.map_values(|v: Vec<u8>| v@) =~= split_raw(bytes@.take(0)).drop_last().filter(
            |p: Seq<u8>| p.len() > 0,
        ));
    }
    while i < bytes.len()
        invariant
            i <= bytes@.len(),
            split_raw(bytes@.take(i as int)).len() >= 1,
            cur@ == split_raw(bytes@.take(i as int)).last(),
            fields@.map_values(|v: Vec<u8>| v@) == split_raw(bytes@.take(i as int)).drop_last()
                .filter(|p: Seq<u8>| p.len() > 0),
        decreases bytes@.len() - i,
    {
        let ghost raw = split_raw(bytes@.take(i as int));
        let b = bytes[i];
        proof {
            assert(bytes@.take(i + 1).drop_last() =~= bytes@.take(i as int));
            assert(bytes@.take(i + 1).last() == bytes@[i as int]);
        }
        if b == 32 {
            let ghost pre_fields = fields@.map_values(|v: Vec<u8>| v@);
            if cur.len() > 0 {
                fields.push(cur);
            }
            cur = Vec::new();
            proof {
                let raw2 = split_raw(bytes@.take(i + 1));
                assert(raw2 == raw.push(Seq::<u8>::empty()));
                assert(raw2.drop_last() =~= raw);
                reveal(Seq::filter);
                assert(raw.drop_last().push(raw.last()) =~= raw);
                assert(raw.filter(|p: Seq<u8>| p.len() > 0) == if raw.last().len() > 0 {
                    raw.drop_last().filter(|p: Seq<u8>| p.len() > 0).push(raw.last())
                } else {
                    raw.drop_last().filter(|p: Seq<u8>| p.len() > 0)
                });
                if raw.last().len() > 0 {
                    assert(fields@.map_values(|v: Vec<u8>| v@) =~= pre_fields.push(raw.last()));
                }
                assert(fields@.map_values(|v: Vec<u8>| v@) == raw2.drop_last().filter(
                    |p: Seq<u8>| p.len() > 0,
                ));
            }
        } else {
            cur.push(b);
            proof {
                let raw2 = split_raw(bytes@.take(i + 1));
                assert(raw2 == raw.update(raw.len() - 1, raw[raw.len() - 1].push(bytes@[i as int])));
                assert(raw2.drop_last() =~= raw.drop_last());
                assert(raw2.last() == raw.last().push(bytes@[i as int]));
                assert(cur@ == raw2.last());
            }
        }
        i = i + 1;
    }
    proof {
        assert(bytes@.take(bytes@.len() as int) =~= bytes@);
    }
    let ghost raw = split_raw(bytes@);
    if cur.len() > 0 {
        let ghost pre_fields = fields@.map_values(|v: Vec<u8>| v@);
        fields.push(cur);
        proof {
            reveal(Seq::filter);
            assert(raw.drop_last().push(raw.last()) =~= raw);
            assert(fields@.map_values(|v: Vec<u8>| v@) =~= pre_fields.push(raw.last()));
            assert(fields@.map_values(|v: Vec<u8>| v@) == fen_fields(bytes@));
        }
    } else {
        proof {
            reveal(Seq::filter);
            assert(raw.drop_last().push(raw.last()) =~= raw);
            assert(fields@.map_values(|v: Vec<u8>| v@) == fen_fields(bytes@));
        }
    }
    fields
}

/// A scan state that has failed stays failed for the rest of the field.
proof fn lemma_place_run_none(f: Seq<u8>, i: int)
    requires
        0 <= i <= f.len(),
        place_run(f.take(i)) is None,
    ensures
        place_run(f) is None,
    decreases f.len() - i,
{
    if i < f.len() {
        assert(f.take(i + 1).drop_last() =~= f.take(i));
        assert(place_run(f.take(i + 1)) is None);
        lemma_place_run_none(f, i + 1);
    } else {
        assert(f.take(i) =~= f);
    }
}

/// Reads the piece-placement field into the two grids.
fn parse_placement(f: &Vec<u8>) -> (r: Option<(Vec<i8>, Vec<i8>)>)
    ensures
        r is Some <==> spec_placement(f@) is Some,
        r is Some ==> ({
            let g = r->Some_0;
            &&& spec_placement(f@) == Some((g.0@, g.1@))
            &&& g.0@.len() == 64
            &&& g.1@.len() == 64
            &&& (forall|i: int| 0 <= i < 64 ==> 0 <= #[trigger] g.0@[i] <= 6)
            &&& (forall|i: int|
                0 <= i < 64 ==> (#[trigger] g.1@[i] == EMPTY || g.1@[i] == WHITE || g.1@[i]
                    == BLACK))
            &&& (forall|i: int| 0 <= i < 64 ==> ((#[trigger] g.0@[i] == EMPTY) <==> g.1@[i] == EMPTY))
        }),
{
    let mut ps: Vec<i8> = Vec::new();
    let mut cs: Vec<i8> = Vec::new();
    let mut k: usize = 0;
    while k < 64
        invariant
            k <= 64,
            ps@.len() == k,
            cs@.len() == k,
            forall|j: int| 0 <= j < k ==> #[trigger] ps@[j] == EMPTY,
            forall|j: int| 0 <= j < k ==> #[trigger] cs@[j] == EMPTY,
        decreases 64 - k,
    {
        ps.push(EMPTY);
        cs.push(EMPTY);
        k = k + 1;
    }
    proof {
        assert(ps@ =~= Seq::new(64, |i: int| EMPTY));
        assert(cs@ =~= Seq::new(64, |i: int| EMPTY));
        assert(f@.take(0) =~= Seq::<u8>::empty());
    }
    let mut row: usize = 0;
    let mut col: usize = 0;
    let mut i: usize = 0;
    while i < f.len()
        invariant
            i <= f@.len(),
            row <= 7,
            col <= 8,
            ps@.len() == 64,
            cs@.len() == 64,
            place_run(f@.take(i as int)) == Some((row as int, col as int, ps@, cs@)),
            forall|j: int| 0 <= j < 64 ==> 0 <= #[trigger] ps@[j] <= 6,
            forall|j: int|
                0 <= j < 64 ==> (#[trigger] cs@[j] == EMPTY || cs@[j] == WHITE || cs@[j] == BLACK),
            forall|j: int| 0 <= j < 64 ==> ((#[trigger] ps@[j] == EMPTY) <==> cs@[j] == EMPTY),
        decreases f@.len() - i,
    {
        let b = f[i];
        proof {
            assert(f@.take(i + 1).drop_last() =~= f@.take(i as int));
            assert(f@.take(i + 1).last() == f@[i as int]);
        }
        if b == 47 {
            if col == 8 && row < 7 {
                row = row + 1;
                col = 0;
            } else {
                proof {
                    lemma_place_run_none(f@, i + 1);
                }
                return None;
            }
        } else if 49 <= b && b <= 56 {
            let skip = (b - 48) as usize;
            if col + skip <= 8 {
                col = col + skip;
            } else {
                proof {
                    lemma_place_run_none(f@, i + 1);
                }
                return None;
            }
        } else {
            let p = byte_piece(b);
            if p >= 1 && col < 8 {
                let colour: i8 = if 65 <= b && b <= 90 {
                    WHITE
                } else {
                    BLACK
                };
                ps.set(row * 8 + col, p);
                cs.set(row * 8 + col, colour);
                col = col + 1;
            } else {
                proof {
                    lemma_place_run_none(f@, i + 1);
                }
                return None;
            }
        }
        i = i + 1;
    }
    proof {
        assert(f@.take(f@.len() as int) =~= f@);
    }
    if row == 7 && col == 8 {
        Some((ps, cs))
    } else {
        None
    }
}

/// Reads the side-to-move field.
fn parse_side(f: &Vec<u8>) -> (r: Option<i8>)
    ensures
        r == spec_side_of(f@),
{
    if f.len() == 1 {
        let b = f[0];
        if b == 119 {
            Some(WHITE)
        } else if b == 98 {
            Some(BLACK)
        } else {
            None
        }
    } else {
        None
    }
}

proof fn lemma_contains_push(s: Seq<u8>, x: u8, y: u8)
    ensures
        s.push(x).contains(y) <==> (s.contains(y) || x == y),
{
    if s.contains(y) {
        let j = choose|j: int| 0 <= j < s.len() && s[j] == y;
        assert(s.push(x)[j] == y);
    }
    if x == y {
        assert(s.push(x)[s.len() as int] == y);
    }
    if s.push(x).contains(y) {
        let j = choose|j: int| 0 <= j < s.push(x).len() && s.push(x)[j] == y;
        if j < s.len() {
            assert(s[j] == y);
        }
    }
}

/// Reads the castling-rights field.
fn parse_castling(f: &Vec<u8>) -> (r: Option<(bool, bool, bool, bool)>)
    ensures
        r == spec_castling_of(f@),
{
    if f.len() == 1 && f[0] == 45 {
        return Some((false, false, false, false));
    }
    if f.len() == 0 {
        return None;
    }
    let mut h1 = false;
    let mut a1 = false;
    let mut h8 = false;
    let mut a8 = false;
    let mut i: usize = 0;
    while i < f.len()
        invariant
            i <= f@.len(),
            f@.len() >= 1,
            !(f@.len() == 1 && f@[0] == 45),
            forall|j: int|
                0 <= j < i ==> ((#[trigger] f@[j]) == 75 || f@[j] == 81 || f@[j] == 107 || f@[j]
                    == 113),
            h1 == f@.take(i as int).contains(75),
            a1 == f@.take(i as int).contains(81),
            h8 == f@.take(i as int).contains(107),
            a8 == f@.take(i as int).contains(113),
        decreases f@.len() - i,
    {
        let b = f[i];
        proof {
            assert(f@.take(i + 1) =~= f@.take(i as int).push(f@[i as int]));
            lemma_contains_push(f@.take(i as int), f@[i as int], 75);
            lemma_contains_push(f@.take(i as int), f@[i as int], 81);
            lemma_contains_push(f@.take(i as int), f@[i as int], 107);
            lemma_contains_push(f@.take(i as int), f@[i as int], 113);
        }
        if b == 75 {
            h1 = true;
        } else if b == 81 {
            a1 = true;
        } else if b == 107 {
            h8 = true;
        } else if b == 113 {
            a8 = true;
        } else {
            proof {
                if (forall|k: int|
                    0 <= k < f@.len() ==> ((#[trigger] f@[k]) == 75 || f@[k] == 81 || f@[k] == 107
                        || f@[k] == 113)) {
                    assert(f@[i as int] == 75 || f@[i as int] == 81 || f@[i as int] == 107
                        || f@[i as int] == 113);
                }
                assert(spec_castling_of(f@) is None);
            }
            return None;
        }
        i = i + 1;
    }
    proof {
        assert(f@.take(f@.len() as int) =~= f@);
        assert(h1 == f@.contains(75) && a1 == f@.contains(81) && h8 == f@.contains(107) && a8
            == f@.contains(113));
        assert(spec_castling_of(f@) == Some((h1, a1, h8, a8)));
    }
    Some((h1, a1, h8, a8))
}

/// Reads the en-passant field.
fn parse_ep(f: &Vec<u8>) -> (r: Option<Option<(usize, usize)>>)
    ensures
        r == spec_ep_of(f@),
        r is Some && r->Some_0 is Some ==> on_board(r->Some_0->Some_0),
{
    if f.len() == 1 && f[0] == 45 {
        return Some(None);
    }
    if f.len() == 2 {
        let b0 = f[0];
        let b1 = f[1];
        if 97 <= b0 && b0 <= 104 && b1 == 51 {
            return Some(Some((4, (b0 - 97) as usize)));
        }
        if 97 <= b0 && b0 <= 104 && b1 == 54 {
            return Some(Some((3, (b0 - 97) as usize)));
        }
    }
    None
}

/// Checks the halfmove-clock field, whose value the engine ignores.
fn parse_clock(f: &Vec<u8>) -> (r: bool)
    ensures
        r == spec_clock_ok(f@),
{
    if f.len() == 0 {
        return false;
    }
    let mut i: usize = 0;
    while i < f.len()
        invariant
            i <= f@.len(),
            forall|j: int| 0 <= j < i ==> 48 <= #[trigger] f@[j] <= 57,
        decreases f@.len() - i,
    {
        let b = f[i];
        if b < 48 || b > 57 {
            return false;
        }
        i = i + 1;
    }
    true
}

proof fn lemma_digits_value_nonneg(f: Seq<u8>)
    requires
        all_digits(f),
    ensures
        digits_value(f) >= 0,
    decreases f.len(),
{
    if f.len() > 0 {
        assert(all_digits(f.drop_last()));
        lemma_digits_value_nonneg(f.drop_last());
    }
}

/// Appending digits never shrinks the value a digit string denotes.
proof fn lemma_digits_value_grows(f: Seq<u8>, i: int)
    requires
        all_digits(f),
        0 <= i <= f.len(),
    ensures
        digits_value(f) >= digits_value(f.take(i)),
    decreases f.len() - i,
{
    if i < f.len() {
        assert(f.take(i + 1).drop_last() =~= f.take(i));
        assert(all_digits(f.take(i)));
        lemma_digits_value_nonneg(f.take(i));
        assert(digits_value(f.take(i + 1)) >= digits_value(f.take(i)));
        lemma_digits_value_grows(f, i + 1);
    } else {
        assert(f.take(i) =~= f);
    }
}

/// Reads the fullmove-number field.
fn parse_fullmove(f: &Vec<u8>) -> (r: Option<i32>)
    ensures
        r is Some <==> spec_fullmove_of(f@) is Some,
        r is Some ==> spec_fullmove_of(f@) == Some(r->Some_0 as int) && 0 <= r->Some_0 <= 1000000,
{
    if f.len() == 0 {
        return None;
    }
    let mut i: usize = 0;
    while i < f.len()
        invariant
            i <= f@.len(),
            forall|j: int| 0 <= j < i ==> 48 <= #[trigger] f@[j] <= 57,
        decreases f@.len() - i,
    {
        let b = f[i];
        if b < 48 || b > 57 {
            return None;
        }
        i = i + 1;
    }
    proof {
        assert(f@.take(0) =~= Seq::<u8>::empty());
    }
    let mut val: i32 = 0;
    let mut i: usize = 0;
    while i < f.len()
        invariant
            i <= f@.len(),
            all_digits(f@),
            0 <= val <= 1000000,
            val as int == digits_value(f@.take(i as int)),
        decreases f@.len() - i,
    {
        let b = f[i];
        proof {
            assert(f@.take(i + 1).drop_last() =~= f@.take(i as int));
            assert(f@.take(i + 1).last() == f@[i as int]);
        }
        val = val * 10 + ((b - 48) as i32);
        if val > 1000000 {
            proof {
                lemma_digits_value_grows(f@, i + 1);
            }
            return None;
        }
        i = i + 1;
    }
    proof {
        assert(f@.take(f@.len() as int) =~= f@);
    }
    Some(val)
}

/// Builds a board from a FEN-like position string of four to six fields:
/// piece placement, side to move, castling rights, en-passant target, and
/// optionally the halfmove clock (ignored) and the fullmove number, which
/// becomes the ply counter. The board handed back is exactly what the text
/// denotes; a malformed string is reported as the first field refused, and
/// no board is handed out for it.
pub fn convert_fen_to_board(fen: &str) -> (r: Result<Board, FenError>)
    ensures
        r is Ok <==> spec_fen_ok(fen.spec_bytes()),
        r is Ok ==> r->Ok_0@ == spec_fen_model(fen.spec_bytes()),
        r is Ok ==> crate::board::board_search_wf(r->Ok_0@) && 0 <= r->Ok_0.ply <= 1000000
            && r->Ok_0@.hashes.len() == 0 && r->Ok_0@.records.len() == 0 && r->Ok_0@.moves.len()
            == 0,
        r is Err ==> r->Err_0 == spec_fen_error(fen.spec_bytes()),
{
    let bytes = fen.as_bytes();
    let fields = split_fields(bytes);
    let ghost fs = fen_fields(fen.spec_bytes());
    proof {
        assert(fields@.map_values(|v: Vec<u8>| v@) == fs);
    }
    if fields.len() < 4 || fields.len() > 6 {
        return Err(FenError::FieldCount);
    }
    proof {
        assert(fields@[0]@ == fs[0]);
        assert(fields@[1]@ == fs[1]);
        assert(fields@[2]@ == fs[2]);
        assert(fields@[3]@ == fs[3]);
    }
    let grids = match parse_placement(&fields[0]) {
        Some(g) => g,
        None => {
            return Err(FenError::Placement);
        },
    };
    let side = match parse_side(&fields[1]) {
        Some(s) => s,
        None => {
            return Err(FenError::SideToMove);
        },
    };
    let rights = match parse_castling(&fields[2]) {
        Some(c) => c,
        None => {
            return Err(FenError::Castling);
        },
    };
    let ep = match parse_ep(&fields[3]) {
        Some(e) => e,
        None => {
            return Err(FenError::EnPassant);
        },
    };
    if fields.len() >= 5 {
        proof {
            assert(fields@[4]@ == fs[4]);
        }
        if !parse_clock(&fields[4]) {
            return Err(FenError::HalfmoveClock);
        }
    }
    let mut ply: i32 = 0;
    if fields.len() == 6 {
        proof {
            assert(fields@[5]@ == fs[5]);
        }
        match parse_fullmove(&fields[5]) {
            Some(v) => {
                ply = v;
            },
            None => {
                return Err(FenError::FullmoveNumber);
            },
        }
    }
    let board = Board {
        board_array: grids.0,
        colour_array: grids.1,
        can_castle_h1: rights.0,
        can_castle_a1: rights.1,
        can_castle_h8: rights.2,
        can_castle_a8: rights.3,
        en_passant_location: ep,
        ply,
        side_to_move: side,
        hash_of_previous_positions: Vec::new(),
        ply_record: Vec::new(),
        move_list: Vec::new(),
    };
    proof {
        assert(board@ =~= spec_fen_model(fen.spec_bytes()));
    }
    Ok(board)
}

} // verus!
