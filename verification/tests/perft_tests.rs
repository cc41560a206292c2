use rust_chess::board::Board;
use rust_chess::conversion;
use rust_chess::search::SearchEngine;

#[test]
fn perft_1_startpos() {
    let mut engine = SearchEngine::new();
    let mut board = Board::init();

    let nodes = engine.perft(&mut board, 1, true);
    assert_eq!(nodes, 20);
}

#[test]
fn perft_2_startpos() {
    let mut engine = SearchEngine::new();
    let mut board = Board::init();

    let nodes = engine.perft(&mut board, 2, true);
    assert_eq!(nodes, 400);
}

#[test]
fn perft_3_startpos() {
    let mut engine = SearchEngine::new();
    let mut board = Board::init();

    let nodes = engine.perft(&mut board, 3, true);
    assert_eq!(nodes, 8902);
}

#[test]
fn perft_4_startpos() {
    let mut engine = SearchEngine::new();
    let mut board = Board::init();

    let nodes = engine.perft(&mut board, 4, true);
    assert_eq!(nodes, 197281);
}

#[test]
fn perft_1_kiwipete() {
    let mut engine = SearchEngine::new();
    let mut board = conversion::convert_fen_to_board(
        "r3k2r/p1ppqpb1/bn2pnp1/3PN3/1p2P3/2N2Q1p/PPPBBPPP/R3K2R w KQkq - ",
    ).unwrap();

    let nodes = engine.perft(&mut board, 1, true);
    assert_eq!(nodes, 48);
}

#[test]
fn perft_2_kiwipete() {
    let mut engine = SearchEngine::new();
    let mut board = conversion::convert_fen_to_board(
        "r3k2r/p1ppqpb1/bn2pnp1/3PN3/1p2P3/2N2Q1p/PPPBBPPP/R3K2R w KQkq - ",
    ).unwrap();

    let nodes = engine.perft(&mut board, 2, true);
    assert_eq!(nodes, 2039);
}

#[test]
fn perft_3_kiwipete() {
    let mut engine = SearchEngine::new();
    let mut board = conversion::convert_fen_to_board(
        "r3k2r/p1ppqpb1/bn2pnp1/3PN3/1p2P3/2N2Q1p/PPPBBPPP/R3K2R w KQkq - ",
    ).unwrap();

    let nodes = engine.perft(&mut board, 3, true);
    assert_eq!(nodes, 97862);
}

#[test]
fn perft_1_position_3() {
    let mut engine = SearchEngine::new();
    let mut board = conversion::convert_fen_to_board("8/2p5/3p4/KP5r/1R3p1k/8/4P1P1/8 w - - ").unwrap();

    let nodes = engine.perft(&mut board, 1, true);
    assert_eq!(nodes, 14);
}

#[test]
fn perft_2_position_3() {
    let mut engine = SearchEngine::new();
    let mut board = conversion::convert_fen_to_board("8/2p5/3p4/KP5r/1R3p1k/8/4P1P1/8 w - - ").unwrap();

    let nodes = engine.perft(&mut board, 2, true);
    assert_eq!(nodes, 191);
}

#[test]
fn perft_3_position_3() {
    let mut engine = SearchEngine::new();
    let mut board = conversion::convert_fen_to_board("8/2p5/3p4/KP5r/1R3p1k/8/4P1P1/8 w - - ").unwrap();

    let nodes = engine.perft(&mut board, 3, true);
    assert_eq!(nodes, 2812);
}

#[test]
fn perft_4_position_3() {
    let mut engine = SearchEngine::new();
    let mut board = conversion::convert_fen_to_board("8/2p5/3p4/KP5r/1R3p1k/8/4P1P1/8 w - - ").unwrap();

    let nodes = engine.perft(&mut board, 4, true);
    assert_eq!(nodes, 43238);
}

#[test]
fn perft_5_position_3() {
    let mut engine = SearchEngine::new();
    let mut board = conversion::convert_fen_to_board("8/2p5/3p4/KP5r/1R3p1k/8/4P1P1/8 w - - ").unwrap();

    let nodes = engine.perft(&mut board, 5, true);
    assert_eq!(nodes, 674624);
}

#[test]
fn perft_1_position_4() {
    let mut engine = SearchEngine::new();
    let mut board = conversion::convert_fen_to_board(
        "r3k2r/Pppp1ppp/1b3nbN/nP6/BBP1P3/q4N2/Pp1P2PP/R2Q1RK1 w kq - 0 1",
    ).unwrap();

    let nodes = engine.perft(&mut board, 1, true);
    assert_eq!(nodes, 6);
}

#[test]
fn perft_2_position_4() {
    let mut engine = SearchEngine::new();
    let mut board = conversion::convert_fen_to_board(
        "r3k2r/Pppp1ppp/1b3nbN/nP6/BBP1P3/q4N2/Pp1P2PP/R2Q1RK1 w kq - 0 1",
    ).unwrap();

    let nodes = engine.perft(&mut board, 2, true);
    assert_eq!(nodes, 264);
}

#[test]
fn perft_3_position_4() {
    let mut engine = SearchEngine::new();
    let mut board = conversion::convert_fen_to_board(
        "r3k2r/Pppp1ppp/1b3nbN/nP6/BBP1P3/q4N2/Pp1P2PP/R2Q1RK1 w kq - 0 1",
    ).unwrap();

    let nodes = engine.perft(&mut board, 3, true);
    assert_eq!(nodes, 9467);
}

#[test]
fn perft_4_position_4() {
    let mut engine = SearchEngine::new();
    let mut board = conversion::convert_fen_to_board(
        "r3k2r/Pppp1ppp/1b3nbN/nP6/BBP1P3/q4N2/Pp1P2PP/R2Q1RK1 w kq - 0 1",
    ).unwrap();

    let nodes = engine.perft(&mut board, 4, true);
    assert_eq!(nodes, 422333);
}

#[test]
fn perft_1_position_5() {
    let mut engine = SearchEngine::new();
    let mut board = conversion::convert_fen_to_board(
        "rnbq1k1r/pp1Pbppp/2p5/8/2B5/8/PPP1NnPP/RNBQK2R w KQ - 1 8",
    ).unwrap();

    let nodes = engine.perft(&mut board, 1, true);
    assert_eq!(nodes, 44);
}

#[test]
fn perft_2_position_5() {
    let mut engine = SearchEngine::new();
    let mut board = conversion::convert_fen_to_board(
        "rnbq1k1r/pp1Pbppp/2p5/8/2B5/8/PPP1NnPP/RNBQK2R w KQ - 1 8",
    ).unwrap();

    let nodes = engine.perft(&mut board, 2, true);
    assert_eq!(nodes, 1486);
}

#[test]
fn perft_3_position_5() {
    let mut engine = SearchEngine::new();
    let mut board = conversion::convert_fen_to_board(
        "rnbq1k1r/pp1Pbppp/2p5/8/2B5/8/PPP1NnPP/RNBQK2R w KQ - 1 8",
    ).unwrap();

    let nodes = engine.perft(&mut board, 3, true);
    assert_eq!(nodes, 62379);
}
