use walleye::board::BoardState;
use walleye::draw_table::DrawTable;
use walleye::fen::DEFAULT_FEN_STRING;

#[test]
fn remove_board_from_draw_table_test() {
    let board = BoardState::from_fen(DEFAULT_FEN_STRING).unwrap();
    let mut draw_table: DrawTable = DrawTable::new();
    draw_table.table.insert(board.zobrist_key, 2);
    draw_table.remove_board_from_draw_table(&board);
    assert_eq!(*draw_table.table.get(&board.zobrist_key).unwrap(), 1);
}

#[test]
fn draw_detected_three_fold_rep() {
    let board = BoardState::from_fen(DEFAULT_FEN_STRING).unwrap();
    let mut draw_table: DrawTable = DrawTable::new();
    draw_table.table.insert(board.zobrist_key, 2);
    assert!(draw_table.is_threefold_repetition(&board));
}

#[test]
fn draw_not_detected() {
    let board = BoardState::from_fen(DEFAULT_FEN_STRING).unwrap();
    let mut draw_table: DrawTable = DrawTable::new();
    draw_table.table.insert(board.zobrist_key, 1);
    assert!(!draw_table.is_threefold_repetition(&board));
}

#[test]
fn board_removed_from_draw_table() {
    let board = BoardState::from_fen(DEFAULT_FEN_STRING).unwrap();
    let mut draw_table: DrawTable = DrawTable::new();
    draw_table.table.insert(board.zobrist_key, 2);
    draw_table.remove_board_from_draw_table(&board);
    assert_eq!(*draw_table.table.get(&board.zobrist_key).unwrap(), 1);
}

#[test]
fn add_then_remove_restores_the_count() {
    let board = BoardState::from_fen(DEFAULT_FEN_STRING).unwrap();
    let mut draw_table = DrawTable::new();
    draw_table.add_board_to_draw_table(&board);
    assert_eq!(*draw_table.table.get(&board.zobrist_key).unwrap(), 1);
    draw_table.add_board_to_draw_table(&board);
    assert!(draw_table.is_threefold_repetition(&board));
    draw_table.remove_board_from_draw_table(&board);
    assert_eq!(*draw_table.table.get(&board.zobrist_key).unwrap(), 1);
    assert!(!draw_table.is_threefold_repetition(&board));
}

#[test]
fn removing_an_unseen_board_changes_nothing() {
    let board = BoardState::from_fen(DEFAULT_FEN_STRING).unwrap();
    let mut draw_table = DrawTable::new();
    draw_table.remove_board_from_draw_table(&board);
    assert!(draw_table.table.is_empty());
    draw_table.add_board_to_draw_table(&board);
    draw_table.clear();
    assert!(draw_table.table.is_empty());
}

#[test]
fn draw_detected_after_more_than_two_sightings() {
    let board = BoardState::from_fen(DEFAULT_FEN_STRING).unwrap();
    let mut draw_table: DrawTable = DrawTable::new();
    draw_table.table.insert(board.zobrist_key, 3);
    assert!(draw_table.is_threefold_repetition(&board));
}
