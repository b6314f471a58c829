use walleye::board::{BoardState, Point};
use walleye::search::SearchContext;
use walleye::transposition_table::{NodeType, TranspositionTable};
use walleye::zobrist::ZobristHasher;

#[test]
fn killer_moves_keep_the_newest_first() {
    let mut a = BoardState::from_fen("8/8/8/8/8/8/8/4K3 w - - 0 1").unwrap();
    let mut ctx = SearchContext::new_search();
    a.zobrist_key = 11;
    ctx.insert_killer_move(3, &a);
    a.zobrist_key = 22;
    ctx.insert_killer_move(3, &a);
    assert_eq!(ctx.killer_moves[3], [22, 11]);
    ctx.insert_killer_move(3, &a);
    assert_eq!(ctx.killer_moves[3], [22, 11]);
    a.zobrist_key = 33;
    ctx.insert_killer_move(3, &a);
    assert_eq!(ctx.killer_moves[3], [33, 22]);
    assert_eq!(ctx.killer_moves[4], [0, 0]);
}

#[test]
fn principal_variation_follows_the_current_line() {
    let mut a = BoardState::from_fen("8/8/8/8/8/8/8/4K3 w - - 0 1").unwrap();
    a.last_move = Some((Point(9, 6), Point(8, 6)));
    let mut ctx = SearchContext::new_search();
    ctx.insert_into_cur_line(0, &a);
    ctx.node_searched();
    ctx.set_principle_variation();
    assert_eq!(ctx.pv_moves[0], a.last_move);
    ctx.reset_search();
    assert_eq!(ctx.cur_line[0], None);
    assert_eq!(ctx.pv_moves[0], a.last_move);
    assert_eq!(ctx.nodes_searched, 0);
}

#[test]
fn node_count_wraps() {
    let mut ctx = SearchContext::new_search();
    ctx.nodes_searched = u32::MAX;
    ctx.node_searched();
    assert_eq!(ctx.nodes_searched, 0);
}

#[test]
fn probe_finds_what_was_inserted() {
    let a = BoardState::from_fen("8/8/8/8/8/8/8/4K3 w - - 0 1").unwrap();
    let b = BoardState::from_fen("8/8/8/8/8/8/8/3K4 w - - 0 1").unwrap();
    let mut tt = TranspositionTable::new();
    assert!(tt.probe(&a).is_none());
    tt.insert(4, 17, NodeType::Exact, None, &a);
    assert!(tt.probe(&a).is_some());
    assert!(tt.probe(&b).is_none());
    tt.insert(2, -3, NodeType::LowerBound, None, &b);
    assert_eq!(tt.table.len(), 2);
}

#[test]
fn hasher_is_the_same_every_time() {
    let a = ZobristHasher::create_zobrist_hasher();
    let b = ZobristHasher::create_zobrist_hasher();
    assert_eq!(a.get_black_to_move_val(), b.get_black_to_move_val());
    assert_ne!(a.get_black_to_move_val(), 0);
    assert_ne!(a.get_black_to_move_val(), a.get_val_for_en_passant(0));
    for f in 0..12 {
        assert_eq!(a.get_val_for_en_passant(f), b.get_val_for_en_passant(f));
    }
}
