use walleye::mailbox::{
    is_bishop, is_black, is_empty, is_king, is_knight, is_outside_board, is_pawn, is_queen,
    is_rook, is_white, new_board, BISHOP, BLACK, EMPTY, KING, KNIGHT, PAWN, QUEEN, ROOK,
    SENTINEL, WHITE,
};

#[test]
fn lib_pieces_recognized() {
    assert!(is_white(WHITE | BISHOP));
    assert!(is_white(WHITE | ROOK));
    assert!(is_white(WHITE | KING));
    assert!(is_white(WHITE | PAWN));

    assert!(is_black(BLACK | BISHOP));
    assert!(is_black(BLACK | ROOK));
    assert!(is_black(BLACK | KING));
    assert!(is_black(BLACK | PAWN));

    assert!(is_pawn(WHITE | PAWN));
    assert!(is_pawn(BLACK | PAWN));
    assert!(!is_pawn(BLACK | ROOK));

    assert!(is_knight(WHITE | KNIGHT));
    assert!(is_knight(BLACK | KNIGHT));
    assert!(!is_knight(WHITE | QUEEN));

    assert!(is_bishop(WHITE | BISHOP));
    assert!(is_bishop(BLACK | BISHOP));
    assert!(!is_bishop(WHITE | ROOK));

    assert!(is_queen(WHITE | QUEEN));
    assert!(is_queen(BLACK | QUEEN));
    assert!(!is_queen(WHITE | PAWN));

    assert!(is_king(WHITE | KING));
    assert!(is_king(BLACK | KING));
    assert!(!is_king(WHITE | QUEEN));

    assert!(is_empty(EMPTY));
    assert!(!is_empty(WHITE | KING));

    assert!(is_outside_board(SENTINEL));
    assert!(!is_outside_board(EMPTY));
    assert!(!is_outside_board(WHITE | KING));
}

#[test]
fn new_board_layout() {
    let b = new_board();
    assert_eq!(b.square(2, 2), WHITE | ROOK);
    assert_eq!(b.square(2, 5), WHITE | KING);
    assert_eq!(b.square(2, 6), WHITE | QUEEN);
    assert_eq!(b.square(3, 4), WHITE | PAWN);
    assert_eq!(b.square(5, 5), EMPTY);
    assert_eq!(b.square(8, 9), BLACK | PAWN);
    assert_eq!(b.square(9, 3), BLACK | KNIGHT);
    assert_eq!(b.square(0, 0), SENTINEL);
    assert_eq!(b.square(5, 1), SENTINEL);
}
