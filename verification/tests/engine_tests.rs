use std::time::Instant;
use walleye::board::{BoardState, Point};
use walleye::draw_table::DrawTable;
use walleye::engine::{
    alpha_beta_search, quiesce, search_info_message, search_until, sort_moves, RootAction, RootSearch,
    NEG_INF, POS_INF,
};
use walleye::evaluation::get_evaluation;
use walleye::move_generation::{generate_moves, MoveGenerationMode};
use walleye::search::SearchContext;
use walleye::zobrist::ZobristHasher;

#[test]
fn quiesce_takes_the_hanging_queen() {
    // white to move can capture a queen with a pawn
    let b = BoardState::from_fen("4k3/8/8/3q4/4P3/8/8/4K3 w - - 0 1").unwrap();
    let mut info = SearchContext::new_search();
    let stand_pat = get_evaluation(&b);
    let v = quiesce(&b, NEG_INF, POS_INF, &mut info);
    assert!(v > stand_pat);
    assert!(info.nodes_searched >= 2);
}

#[test]
fn quiesce_fails_high_at_beta() {
    let b = BoardState::from_fen("4k3/8/8/3q4/4P3/8/8/4K3 w - - 0 1").unwrap();
    let mut info = SearchContext::new_search();
    let stand_pat = get_evaluation(&b);
    assert_eq!(quiesce(&b, NEG_INF, stand_pat, &mut info), stand_pat);
}

#[test]
fn search_with_no_time_gives_up() {
    let b = BoardState::from_fen("4k3/8/8/3q4/4P3/8/8/4K3 w - - 0 1").unwrap();
    let mut info = SearchContext::new_search();
    let mut table = DrawTable::new();
    let v = alpha_beta_search(Instant::now(), 0, &b, 3, 1, NEG_INF, POS_INF, &mut info, true, &ZobristHasher::create_zobrist_hasher(), &mut table);
    assert_eq!(v, NEG_INF);
}

#[test]
fn search_finds_mate_in_one() {
    // white mates with Ra8
    let b = BoardState::from_fen("6k1/5ppp/8/8/8/8/8/R5K1 w - - 0 1").unwrap();
    let mut info = SearchContext::new_search();
    let mut table = DrawTable::new();
    let v = alpha_beta_search(Instant::now(), 60_000, &b, 2, 1, NEG_INF, POS_INF, &mut info, false, &ZobristHasher::create_zobrist_hasher(), &mut table);
    assert!(v >= 100000 - 10);
}

#[test]
fn sorting_puts_best_scores_first() {
    let b = BoardState::from_fen("rnbqkbnr/pppppppp/2N5/8/8/8/PPPPPPPP/RNBQKBNR w KQkq - 0 1").unwrap();
    let mut moves = generate_moves(&b, MoveGenerationMode::AllMoves);
    let n = moves.len();
    sort_moves(&mut moves);
    assert_eq!(moves.len(), n);
    for w in moves.windows(2) {
        assert!(w[0].order_heuristic >= w[1].order_heuristic);
    }
    assert!(moves[0].order_heuristic > i32::MIN);
}

#[test]
fn root_search_reports_legal_moves() {
    let b = BoardState::from_fen("6k1/5ppp/8/8/8/8/8/R5K1 w - - 0 1").unwrap();
    let legal = generate_moves(&b, MoveGenerationMode::AllMoves);
    let mut search = RootSearch::new(&b);
    let mut table = DrawTable::new();
    let start = Instant::now();
    let mut reports = 0;
    let mut last = None;
    loop {
        match search.step(start, 300, &mut table) {
            RootAction::Report { board, info } => {
                assert!(info.starts_with("info pv"));
                assert!(legal.iter().any(|m| m.last_move == board.last_move));
                last = Some(board);
                reports += 1;
            }
            RootAction::Stop { fallback } => {
                if let Some(f) = fallback {
                    assert!(legal.iter().any(|m| m.last_move == f.last_move));
                }
                break;
            }
            RootAction::Done => break,
        }
    }
    assert!(reports >= 1);
    assert_eq!(last.unwrap().last_move, Some((Point(9, 2), Point(2, 2))));
}

#[test]
fn root_search_without_time_reports_nothing() {
    let b = BoardState::from_fen("rnbqkbnr/pppppppp/8/8/8/8/PPPPPPPP/RNBQKBNR w KQkq - 0 1").unwrap();
    let mut search = RootSearch::new(&b);
    let mut table = DrawTable::new();
    match search.step(Instant::now(), 0, &mut table) {
        RootAction::Stop { fallback } => assert!(fallback.is_some()),
        _ => panic!("expected the search to stop"),
    }
}

#[test]
fn info_message_formats() {
    let mut info = SearchContext::new_search();
    info.pv_moves[0] = Some((Point(8, 6), Point(6, 6)));
    info.pv_moves[1] = Some((Point(3, 6), Point(5, 6)));
    info.nodes_searched = 42;
    assert_eq!(search_info_message(&info, 3, 25, 7), "info pv e2e4 e7e5 depth 3 nodes 42 score cp 25 time 7");
    assert_eq!(search_info_message(&info, 1, -30, 0), "info pv e2e4 e7e5 depth 1 nodes 42 score cp -30 time 0");
    assert_eq!(search_info_message(&info, 5, 99999, 12), "info pv e2e4 e7e5 depth 5 nodes 42 score mate 1 time 12");
    assert_eq!(search_info_message(&info, 5, -99998, 12), "info pv e2e4 e7e5 depth 5 nodes 42 score mate -1 time 12");
    let empty = SearchContext::new_search();
    assert_eq!(search_info_message(&empty, 1, 0, 0), "info pv depth 1 nodes 0 score cp 0 time 0");
}

#[test]
fn quiesce_value_is_the_best_capture_line() {
    // the only capture is exd5; black then has no capture and stands pat
    let b = BoardState::from_fen("4k3/8/8/3q4/4P3/8/8/4K3 w - - 0 1").unwrap();
    let captures = generate_moves(&b, MoveGenerationMode::CapturesOnly);
    assert_eq!(captures.len(), 1);
    assert!(generate_moves(&captures[0], MoveGenerationMode::CapturesOnly).is_empty());
    let value = std::cmp::max(get_evaluation(&b), -get_evaluation(&captures[0]));
    let mut info = SearchContext::new_search();
    assert_eq!(quiesce(&b, NEG_INF, POS_INF, &mut info), value);
    // a narrower window clamps that value
    let mut info = SearchContext::new_search();
    assert_eq!(quiesce(&b, value - 10, value + 10, &mut info), value);
    let mut info = SearchContext::new_search();
    assert_eq!(quiesce(&b, value + 5, value + 10, &mut info), value + 5);
    let mut info = SearchContext::new_search();
    assert_eq!(quiesce(&b, value - 10, value - 5, &mut info), value - 5);
}

#[test]
fn search_scores_a_repeated_position_as_a_draw() {
    // white is a rook up, but the position was already seen twice
    let b = BoardState::from_fen("6k1/5ppp/8/8/8/8/8/R5K1 w - - 0 1").unwrap();
    let mut info = SearchContext::new_search();
    let mut table = DrawTable::new();
    table.add_board_to_draw_table(&b);
    table.add_board_to_draw_table(&b);
    let v = alpha_beta_search(Instant::now(), 60_000, &b, 2, 1, NEG_INF, POS_INF, &mut info, false, &ZobristHasher::create_zobrist_hasher(), &mut table);
    assert_eq!(v, 0);
}

#[test]
fn search_scores_being_mated_by_the_distance() {
    // black is mated on the back rank
    let b = BoardState::from_fen("R5k1/5ppp/8/8/8/8/8/6K1 b - - 0 1").unwrap();
    assert!(generate_moves(&b, MoveGenerationMode::AllMoves).is_empty());
    let mut info = SearchContext::new_search();
    let mut table = DrawTable::new();
    let v = alpha_beta_search(Instant::now(), 60_000, &b, 2, 3, NEG_INF, POS_INF, &mut info, true, &ZobristHasher::create_zobrist_hasher(), &mut table);
    assert_eq!(v, 3 - 100000);
}

#[test]
fn quiesce_with_a_closed_window() {
    // a capture is available: the search fails high at beta
    let b = BoardState::from_fen("4k3/8/8/3q4/4P3/8/8/4K3 w - - 0 1").unwrap();
    let mut info = SearchContext::new_search();
    let stand_pat = get_evaluation(&b);
    assert_eq!(quiesce(&b, stand_pat + 50, stand_pat + 10, &mut info), stand_pat + 10);
    // bare kings: no capture, and the static evaluation stays below beta
    let k = BoardState::from_fen("4k3/8/8/8/8/8/8/4K3 w - - 0 1").unwrap();
    let mut info = SearchContext::new_search();
    let e = get_evaluation(&k);
    assert_eq!(quiesce(&k, e + 50, e + 10, &mut info), e + 50);
}

#[test]
fn search_scores_stalemate_as_a_draw() {
    let b = BoardState::from_fen("k7/8/1Q6/8/8/8/8/K7 b - - 0 1").unwrap();
    let mut info = SearchContext::new_search();
    let mut table = DrawTable::new();
    let v = alpha_beta_search(Instant::now(), u128::MAX, &b, 1, 0, NEG_INF, POS_INF, &mut info, true, &ZobristHasher::create_zobrist_hasher(), &mut table);
    assert_eq!(v, 0);
}

#[test]
fn search_scores_mate_with_time_to_spare() {
    let b = BoardState::from_fen("k7/1Q6/1K6/8/8/8/8/8 b - - 0 1").unwrap();
    let mut info = SearchContext::new_search();
    let mut table = DrawTable::new();
    let v = alpha_beta_search(Instant::now(), u128::MAX, &b, 1, 3, NEG_INF, POS_INF, &mut info, true, &ZobristHasher::create_zobrist_hasher(), &mut table);
    assert_eq!(v, 3 - 100000);
    assert!(table.table.values().all(|&c| c == 0));
}

#[test]
fn search_takes_back_every_sighting() {
    let b = BoardState::from_fen("r3k2r/p1ppqpb1/bn2pnp1/3PN3/1p2P3/2N2Q1p/PPPBBPPP/R3K2R w KQkq - 0 1").unwrap();
    let mut info = SearchContext::new_search();
    let mut table = DrawTable::new();
    table.add_board_to_draw_table(&b);
    let before = table.table.clone();
    alpha_beta_search(Instant::now(), u128::MAX, &b, 2, 1, NEG_INF, POS_INF, &mut info, true, &ZobristHasher::create_zobrist_hasher(), &mut table);
    for (k, v) in table.table.iter() {
        assert_eq!(*v, *before.get(k).unwrap_or(&0));
    }
}

#[test]
fn repeated_position_counts_one_node_and_keeps_the_table() {
    let b = BoardState::from_fen("6k1/5ppp/8/8/8/8/8/R5K1 w - - 0 1").unwrap();
    let mut info = SearchContext::new_search();
    let mut table = DrawTable::new();
    table.add_board_to_draw_table(&b);
    table.add_board_to_draw_table(&b);
    let before = table.table.clone();
    let v = alpha_beta_search(Instant::now(), u128::MAX, &b, 3, 1, NEG_INF, POS_INF, &mut info, true, &ZobristHasher::create_zobrist_hasher(), &mut table);
    assert_eq!(v, 0);
    assert_eq!(info.nodes_searched, 1);
    assert_eq!(table.table, before);
}

#[test]
fn root_search_reports_its_first_move_with_time_to_spare() {
    let b = BoardState::from_fen("6k1/5ppp/8/8/8/8/8/R5K1 w - - 0 1").unwrap();
    let mut search = RootSearch::new(&b);
    let mut table = DrawTable::new();
    match search.step(Instant::now(), u128::MAX, &mut table) {
        RootAction::Report { board, info } => {
            assert!(board.last_move.is_some());
            assert!(info.starts_with("info pv"));
        }
        _ => panic!("expected a report"),
    }
}

#[test]
fn search_does_not_take_new_positions_for_repeats() {
    // white is a queen up; every position two plies down is new, so none is scored as a draw
    let b = BoardState::from_fen("4k3/8/8/8/8/8/8/3QK3 w - - 0 1").unwrap();
    let mut info = SearchContext::new_search();
    let mut table = DrawTable::new();
    table.add_board_to_draw_table(&b);
    let v = alpha_beta_search(Instant::now(), u128::MAX, &b, 3, 1, NEG_INF, POS_INF, &mut info, true, &ZobristHasher::create_zobrist_hasher(), &mut table);
    assert!(v > 500);
}

#[test]
fn root_search_reports_the_mate_in_one_as_a_mate() {
    // Ra8 mates: once it is reported, the search gives it a mate score
    let b = BoardState::from_fen("6k1/5ppp/8/8/8/8/8/R5K1 w - - 0 1").unwrap();
    let mut search = RootSearch::new(&b);
    let mut table = DrawTable::new();
    let mut mate_info = None;
    for _ in 0..200 {
        match search.step(Instant::now(), u128::MAX, &mut table) {
            RootAction::Report { board, info } => {
                if board.last_move == Some((Point(9, 2), Point(2, 2))) {
                    mate_info = Some(info);
                    break;
                }
            }
            _ => break,
        }
    }
    let info = mate_info.expect("the mating move is reported");
    assert!(info.contains(" score mate 1 "));
}

#[test]
fn search_until_a_stop_that_never_comes_finds_the_mate() {
    let b = BoardState::from_fen("k7/1Q6/1K6/8/8/8/8/8 b - - 0 1").unwrap();
    let mut info = SearchContext::new_search();
    let mut table = DrawTable::new();
    let h = ZobristHasher::create_zobrist_hasher();
    let v = search_until(&|| false, &b, 1, 3, NEG_INF, POS_INF, &mut info, true, &h, &mut table);
    assert_eq!(v, 3 - 100000);
}

#[test]
fn search_until_an_immediate_stop_gives_up() {
    let b = BoardState::from_fen("4k3/8/8/8/8/8/8/3QK3 w - - 0 1").unwrap();
    let mut info = SearchContext::new_search();
    let mut table = DrawTable::new();
    let h = ZobristHasher::create_zobrist_hasher();
    let v = search_until(&|| true, &b, 3, 1, NEG_INF, POS_INF, &mut info, true, &h, &mut table);
    assert_eq!(v, NEG_INF);
    assert_eq!(info.nodes_searched, 0);
}

#[test]
fn settle_reports_exactly_the_moves_that_beat_the_score() {
    let b = BoardState::from_fen("6k1/5ppp/8/8/8/8/8/R5K1 w - - 0 1").unwrap();
    let moves = generate_moves(&b, MoveGenerationMode::AllMoves);
    let mut search = RootSearch::new(&b);
    // the first value sets the score: the move is reported with the negated value
    match search.settle(moves[0], 5, false, 7) {
        Some(RootAction::Report { board, info }) => {
            assert_eq!(board.last_move, moves[0].last_move);
            assert!(info.contains(" score cp -5 "));
            assert!(info.ends_with(" time 7"));
        }
        _ => panic!("expected a report"),
    }
    // a better value is reported
    assert!(matches!(search.settle(moves[1], -10, false, 8), Some(RootAction::Report { .. })));
    // a worse value, or a better one found after the time ran out, is not
    assert!(search.settle(moves[2], 20, false, 9).is_none());
    assert!(search.settle(moves[3], -50, true, 9).is_none());
}

#[test]
fn root_search_boards_carry_their_own_keys() {
    let b = BoardState::from_fen("6k1/5ppp/8/8/8/8/8/R5K1 w - - 0 1").unwrap();
    let h = ZobristHasher::create_zobrist_hasher();
    let mut table = DrawTable::new();
    let mut search = RootSearch::new(&b);
    match search.step(Instant::now(), u128::MAX, &mut table) {
        RootAction::Report { board, .. } => {
            assert_eq!(board.zobrist_key, board.compute_key(&h));
            assert_ne!(board.zobrist_key, b.zobrist_key);
        }
        _ => panic!("expected a report"),
    }
    let mut search = RootSearch::new(&b);
    match search.step(Instant::now(), 0, &mut table) {
        RootAction::Stop { fallback: Some(board) } => {
            assert_eq!(board.zobrist_key, board.compute_key(&h));
            assert_ne!(board.zobrist_key, b.zobrist_key);
        }
        _ => panic!("expected the fallback"),
    }
}

#[test]
fn step_until_with_a_stop_that_always_comes_falls_back() {
    let b = BoardState::from_fen("6k1/5ppp/8/8/8/8/8/R5K1 w - - 0 1").unwrap();
    let mut table = DrawTable::new();
    let mut search = RootSearch::new(&b);
    match search.step_until(&|| true, &|| 0, &mut table) {
        RootAction::Stop { fallback } => assert!(fallback.is_some()),
        _ => panic!("expected a stop"),
    }
}

#[test]
fn quiesce_accepts_a_window_beyond_the_search_range() {
    let b = BoardState::from_fen("4k3/8/8/8/8/8/8/3QK3 w - - 0 1").unwrap();
    let mut info = SearchContext::new_search();
    assert_eq!(quiesce(&b, 20_000_000, 30_000_000, &mut info), 20_000_000);
    assert_eq!(quiesce(&b, -30_000_000, -20_000_000, &mut info), -20_000_000);
}

#[test]
fn search_accepts_a_window_beyond_the_search_range() {
    // the window lies above any mate score, so mate distance pruning closes it at once
    let b = BoardState::from_fen("4k3/8/8/8/8/8/8/3QK3 w - - 0 1").unwrap();
    let mut info = SearchContext::new_search();
    let mut table = DrawTable::new();
    let h = ZobristHasher::create_zobrist_hasher();
    let v = alpha_beta_search(Instant::now(), u128::MAX, &b, 2, 1, 20_000_000, 30_000_000, &mut info, true, &h, &mut table);
    assert_eq!(v, 20_000_000);
}
