use rust_chess::board::Board;
use rust_chess::conversion;
use rust_chess::evaluate;
use rust_chess::search::{SearchEngine, SearchOutcome};

/// The moves perft accepted at the root, without the promotion padding.
fn legal_root_moves(fen: &str) -> Vec<String> {
    let mut engine = SearchEngine::new();
    let mut board = conversion::convert_fen_to_board(fen).unwrap();
    engine.perft(&mut board, 1, true);
    engine
        .move_nodes
        .iter()
        .map(|n| n.move_notation.trim().to_string())
        .collect()
}

// Castling is legal when the rights are held, the path is clear and no
// involved square is attacked.
#[test]
fn castling_allowed_when_clear() {
    let moves = legal_root_moves("r3k2r/8/8/8/8/8/8/R3K2R w KQkq - 0 1");
    assert!(moves.contains(&"e1g1".to_string()));
    assert!(moves.contains(&"e1c1".to_string()));
}

// Castling is rejected while the king is in check.
#[test]
fn castling_rejected_in_check() {
    let moves = legal_root_moves("4k3/8/8/8/4r3/8/8/R3K2R w KQ - 0 1");
    assert!(!moves.contains(&"e1g1".to_string()));
    assert!(!moves.contains(&"e1c1".to_string()));
}

// Castling is rejected when the king would pass through an attacked square.
#[test]
fn castling_rejected_through_attack() {
    let moves = legal_root_moves("4k3/8/8/8/5r2/8/8/R3K2R w KQ - 0 1");
    assert!(!moves.contains(&"e1g1".to_string()));
    assert!(moves.contains(&"e1c1".to_string()));
}

// Castling is rejected when the king would land on an attacked square.
#[test]
fn castling_rejected_onto_attack() {
    let moves = legal_root_moves("4k3/8/8/8/6r1/8/8/4K2R w K - 0 1");
    assert!(!moves.contains(&"e1g1".to_string()));
}

// Castling is rejected once the rights are gone or a square between king
// and rook is occupied.
#[test]
fn castling_rejected_without_right_or_path() {
    let no_rights = legal_root_moves("r3k2r/8/8/8/8/8/8/R3K2R w - - 0 1");
    assert!(!no_rights.contains(&"e1g1".to_string()));
    assert!(!no_rights.contains(&"e1c1".to_string()));
    let blocked = legal_root_moves("4k3/8/8/8/8/8/8/RN2K1NR w KQ - 0 1");
    assert!(!blocked.contains(&"e1g1".to_string()));
    assert!(!blocked.contains(&"e1c1".to_string()));
}

// The search returns a legal root move and every legal root move with its
// score, and leaves the board as it found it.
#[test]
fn search_returns_scored_root_moves() {
    let mut board = Board::init();
    let mut engine = SearchEngine::new();
    engine.depth = 2;
    let (outcome, all) = engine.search(&mut board);
    let best = match outcome {
        SearchOutcome::BestMove(m) => m,
        _ => panic!("expected a best move"),
    };
    assert_eq!(all.len(), 20);
    assert!(all.iter().any(|bm| {
        bm.best_move.from == best.from && bm.best_move.to == best.to
    }));
    for bm in all.iter() {
        assert!(bm.best_score <= best.search_score);
        assert_eq!(bm.best_score, bm.best_move.search_score);
    }
    // the board is back in its starting state
    assert_eq!(board.ply, 0);
    assert_eq!(board.side_to_move, 1);
    assert_eq!(board.hash_of_previous_positions.len(), 0);
    assert_eq!(board.get_piece((6, 4)), 1);
}

// A checkmated side has no legal root move; the search reports checkmate
// rather than inventing a move.
#[test]
fn search_reports_no_moves_when_mated() {
    // back-rank check: black to move still has replies
    let mut board = conversion::convert_fen_to_board("6k1/5ppp/8/8/8/8/8/R5K1 b - - 0 1").unwrap();
    let mut engine = SearchEngine::new();
    engine.depth = 1;
    let (_outcome, all) = engine.search(&mut board);
    assert!(all.len() > 0);
    let mut mated = conversion::convert_fen_to_board("R5k1/5ppp/8/8/8/8/8/6K1 b - - 0 1").unwrap();
    let mut engine2 = SearchEngine::new();
    engine2.depth = 1;
    let (outcome2, all2) = engine2.search(&mut mated);
    assert_eq!(all2.len(), 0);
    assert!(matches!(outcome2, SearchOutcome::Checkmate));
}

// A stalemated side has no legal root move and is not in check; the search
// reports stalemate.
#[test]
fn search_reports_stalemate() {
    let mut board = conversion::convert_fen_to_board("7k/5Q2/6K1/8/8/8/8/8 b - - 0 1").unwrap();
    let mut engine = SearchEngine::new();
    engine.depth = 1;
    let (outcome, all) = engine.search(&mut board);
    assert_eq!(all.len(), 0);
    assert!(matches!(outcome, SearchOutcome::Stalemate));
}

// A root move that reproduces the same position for the third time stays
// in the reported list with a draw score of zero.
#[test]
fn search_scores_repetition_as_draw() {
    let mut board = Board::init();
    for _ in 0..2 {
        for notation in ["g1f3", "g8f6", "f3g1", "f6g8"] {
            board.make_move_with_notation(notation.to_string()).unwrap();
        }
    }
    for notation in ["g1f3", "g8f6", "f3g1"] {
        board.make_move_with_notation(notation.to_string()).unwrap();
    }
    // black to move; f6g8 reproduces the starting position a third time
    let mut engine = SearchEngine::new();
    engine.depth = 1;
    let (_outcome, all) = engine.search(&mut board);
    let drawn: Vec<_> = all
        .iter()
        .filter(|bm| bm.best_move.from == (2, 5) && bm.best_move.to == (0, 6))
        .collect();
    assert_eq!(drawn.len(), 1);
    assert_eq!(drawn[0].best_score, 0);
}

// Minimax and alpha-beta agree on the value of a one-sided position: both
// leave the board untouched.
#[test]
fn minimax_restores_board() {
    let mut board = conversion::convert_fen_to_board(
        "r3k2r/p1ppqpb1/bn2pnp1/3PN3/1p2P3/2N2Q1p/PPPBBPPP/R3K2R w KQkq - ",
    ).unwrap();
    let before_hash = board.hash_board_state();
    let mut engine = SearchEngine::new();
    let _score = engine.minimax(&mut board, 2, true, i32::MIN + 1, i32::MAX);
    assert_eq!(board.hash_board_state(), before_hash);
    let _score2 = engine.alpha_beta(&mut board, 2, i32::MIN + 1, i32::MAX);
    assert_eq!(board.hash_board_state(), before_hash);
    let _score3 = engine.quiescence_search(&mut board, i32::MIN + 1, i32::MAX);
    assert_eq!(board.hash_board_state(), before_hash);
}

// The safety score counts the surrounding squares the enemy attacks, times
// the attackers' weight: a rook beside the king covers three of them.
#[test]
fn safety_score_counts_attackers() {
    let quiet = conversion::convert_fen_to_board("4k3/8/8/8/8/8/8/4K3 w - - 0 1").unwrap();
    assert_eq!(evaluate::get_safety_score(&quiet, (7, 4), 1), 0);
    let attacked = conversion::convert_fen_to_board("4k3/8/8/8/8/8/4r3/4K3 w - - 0 1").unwrap();
    assert_eq!(evaluate::get_safety_score(&attacked, (7, 4), 1), 360);
}

// Attack detection: a rook attacks along its file until blocked.
#[test]
fn attack_detection_by_piece() {
    let board = conversion::convert_fen_to_board("4k3/8/8/8/4r3/8/4P3/4K3 w - - 0 1").unwrap();
    // the rook on e4 attacks e2 (the pawn) but not e1 behind it
    assert!(evaluate::is_attacked_by_piece_from_square(&board, (4, 4), 4, (6, 4), 2));
    assert!(!evaluate::is_attacked_by_piece_from_square(&board, (4, 4), 4, (7, 4), 2));
    // and the white king is not in check behind its pawn
    assert!(!evaluate::is_in_check(&board, 1, None));
    // but the transit square e2 counts when asked about
    assert!(evaluate::is_in_check(&board, 1, Some((6, 4))));
}

// The time budget: an explicit move time less the overhead, or a fraction
// of the clock plus the increment.
#[test]
fn allowed_time_budget() {
    let mut engine = SearchEngine::new();
    assert_eq!(engine.get_allowed_time(1), 10000);
    engine.use_time_management = true;
    engine.movetime = 100;
    assert_eq!(engine.get_allowed_time(1), 80);
    engine.movetime = 0;
    engine.wtime = 3000;
    engine.winc = 50;
    assert_eq!(engine.get_allowed_time(1), 130);
    engine.btime = 600;
    engine.binc = 0;
    assert_eq!(engine.get_allowed_time(2), 0);
}

// An en-passant capture offered by the FEN target square is generated and
// legal.
#[test]
fn en_passant_capture_is_generated() {
    let moves = legal_root_moves("k7/8/8/8/4Pp2/8/8/K7 b - e3 0 1");
    assert!(moves.contains(&"f4e3".to_string()));
    // and the capturing pawn may also simply push
    assert!(moves.contains(&"f4f3".to_string()));
}

// An en-passant capture that would leave the king in check is rejected:
// taking the pawn opens the rank between the rook and the king.
#[test]
fn en_passant_pin_is_rejected() {
    let moves = legal_root_moves("8/8/8/8/1R2Pp1k/8/8/K7 b - e3 0 1");
    assert!(!moves.contains(&"f4e3".to_string()));
    assert!(moves.contains(&"h4g5".to_string()));
}
