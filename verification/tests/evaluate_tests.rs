use rust_chess::board::Board;
use rust_chess::conversion;
use rust_chess::evaluate;

#[test]
fn evaluate_even_1() {
    let board =
        conversion::convert_fen_to_board("rnbqkbnr/8/8/pppppppp/PPPPPPPP/8/8/RNBQKBNR w KQkq a6 0 9").unwrap();

    let eval = evaluate::evaluate(&board);
    assert!(eval == 0, "Not around 0 eval");
}

#[test]
fn evaluate_even_2() {
    let board =
        conversion::convert_fen_to_board("2b2N1k/1p5P/1P2p2P/4Pp2/4pP2/1p2P2p/1P5p/2B2n1K w - - 0 1").unwrap();

    let eval = evaluate::evaluate(&board);
    assert!(eval == 0, "Not around 0 eval");
}

#[test]
fn evaluate_even_3() {
    let board =
        conversion::convert_fen_to_board("b1nr1k1n/pp1Bp1p1/8/2p5/2P5/8/PP1bP1P1/B1NR1K1N w Qq - 0 7").unwrap();

    let eval = evaluate::evaluate(&board);
    assert!(eval == 0, "Not around 0 eval");
}

#[test]
fn evaluate_white_1() {
    let board = conversion::convert_fen_to_board("Q1k5/8/1K6/8/8/5B2/8/8 b - - 0 64").unwrap();

    let eval = evaluate::evaluate(&board);
    assert!(eval < -100, "position favours white!");
}

#[test]
fn evaluate_white_2() {
    let board = conversion::convert_fen_to_board("5k2/5p2/4pQp1/4P1Np/7P/6P1/4qP1K/8 b - - 10 41").unwrap();

    let eval = evaluate::evaluate(&board);
    // white is ahead and black is to move: the side-to-move score is negative
    assert!(eval < -100, "position does not favour white!");
}

#[test]
fn evaluate_black_1() {
    let board = conversion::convert_fen_to_board("1k6/7p/4q3/3n4/3K4/2q5/7P/8 w - - 2 50").unwrap();

    let eval = evaluate::evaluate(&board);
    // black is ahead and white is to move: the side-to-move score is negative
    assert!(eval < -100, "position does not favour black!");
}

// A symmetric position must evaluate to zero from both sides' points of view.
#[test]
fn evaluate_mirror_both_sides() {
    let white_view =
        conversion::convert_fen_to_board("2b2N1k/1p5P/1P2p2P/4Pp2/4pP2/1p2P2p/1P5p/2B2n1K w - - 0 1").unwrap();
    let black_view =
        conversion::convert_fen_to_board("2b2N1k/1p5P/1P2p2P/4Pp2/4pP2/1p2P2p/1P5p/2B2n1K b - - 0 1").unwrap();
    assert_eq!(evaluate::evaluate(&white_view), 0);
    assert_eq!(evaluate::evaluate(&black_view), 0);
}

// The starting position is symmetric and evaluates to zero.
#[test]
fn evaluate_startpos_is_even() {
    let board = Board::init();
    assert_eq!(evaluate::evaluate(&board), 0);
}

// A queen up is a large advantage for the side to move that owns it.
#[test]
fn evaluate_material_counts() {
    let board = conversion::convert_fen_to_board("4k3/8/8/8/8/8/8/Q3K3 w - - 0 1").unwrap();
    let eval = evaluate::evaluate(&board);
    assert!(eval > 800);
}

#[test]
fn is_endgame_by_ply() {
    let early = conversion::convert_fen_to_board("4k3/8/8/8/8/8/8/4K3 w - - 0 10").unwrap();
    let late = conversion::convert_fen_to_board("4k3/8/8/8/8/8/8/4K3 w - - 0 64").unwrap();
    assert!(!evaluate::is_endgame(&early));
    assert!(evaluate::is_endgame(&late));
}

// The piece-square getters agree on every square for a non-king piece and
// differ for the king only in the endgame table.
#[test]
fn piece_square_tables_mirror() {
    // a white pawn on e4 and a black pawn on e5 read the same table entry
    let w = conversion::get_piece_square_value_mg((4, 4), 1, 1);
    let b = conversion::get_piece_square_value_mg((3, 4), 1, 2);
    assert_eq!(w, b);
    // the rook keeps its middlegame value in the endgame table
    assert_eq!(
        conversion::get_piece_square_value_mg((0, 0), 4, 1),
        conversion::get_piece_square_value_eg((0, 0), 4, 1)
    );
}
