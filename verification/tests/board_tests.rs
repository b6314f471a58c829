use walleye::board::{BoardState, Piece, PieceColor, PieceKind, Point, Square, BOARD_END, BOARD_START};
use walleye::fen::DEFAULT_FEN_STRING;

use PieceColor::{Black, White};
use PieceKind::{Bishop, King, Knight, Pawn, Queen, Rook};

#[test]
fn board_pieces_recognized() {
    assert_eq!(Piece::bishop(White).color, White);
    assert_eq!(Piece::rook(White).color, White);
    assert_eq!(Piece::king(White).color, White);
    assert_eq!(Piece::pawn(White).color, White);

    assert_eq!(Piece::bishop(Black).color, Black);
    assert_eq!(Piece::rook(Black).color, Black);
    assert_eq!(Piece::king(Black).color, Black);
    assert_eq!(Piece::pawn(Black).color, Black);

    assert_eq!(Piece::pawn(White).kind, Pawn);
    assert_eq!(Piece::knight(White).kind, Knight);
    assert_eq!(Piece::bishop(White).kind, Bishop);
    assert_eq!(Piece::rook(White).kind, Rook);
    assert_eq!(Piece::queen(White).kind, Queen);
    assert_eq!(Piece::king(White).kind, King);

    assert!(Square::Empty.is_empty());
    assert!(!Square::Full(Piece::king(White)).is_empty());
}

// Algebraic translation tests

#[test]
fn algebraic_translation_correct() {
    let res = "a8".parse::<Point>().unwrap();
    assert_eq!(res.0, BOARD_START);
    assert_eq!(res.1, BOARD_START);

    let res = "h1".parse::<Point>().unwrap();
    assert_eq!(res.0, BOARD_END - 1);
    assert_eq!(res.1, BOARD_END - 1);

    let res = "a6".parse::<Point>().unwrap();
    assert_eq!(res.0, BOARD_START + 2);
    assert_eq!(res.1, BOARD_START);

    let res = "c5".parse::<Point>().unwrap();
    assert_eq!(res.0, BOARD_START + 3);
    assert_eq!(res.1, BOARD_START + 2);
}

#[test]
#[should_panic]
fn algebraic_translation_panic_col() {
    "z1".parse::<Point>().unwrap();
}

#[test]
#[should_panic]
fn algebraic_translation_panic_long() {
    "a11".parse::<Point>().unwrap();
}

#[test]
fn points_to_long_algebraic_position_test() {
    let res = Point(2, 2).to_string();
    assert_eq!(res, "a8");

    let res = Point(4, 6).to_string();
    assert_eq!(res, "e6");
}

// Fen string tests

#[test]
fn empty_board() {
    let b = BoardState::from_fen("8/8/8/8/8/8/8/8 w - - 0 1").unwrap();
    for i in BOARD_START..BOARD_END {
        for j in BOARD_START..BOARD_END {
            assert_eq!(b.board[i][j], Square::Empty);
        }
    }
    assert_eq!(b.zobrist_key, 0);
}

#[test]
fn starting_pos() {
    let b = BoardState::from_fen("rnbqkbnr/pppppppp/8/8/8/8/PPPPPPPP/RNBQKBNR w KQkq - 0 1").unwrap();
    assert_eq!(b.board[2][2], Square::from(Piece::rook(Black)));
    assert_eq!(b.board[2][3], Square::from(Piece::knight(Black)));
    assert_eq!(b.board[2][4], Square::from(Piece::bishop(Black)));
    assert_eq!(b.board[2][5], Square::from(Piece::queen(Black)));
    assert_eq!(b.board[2][6], Square::from(Piece::king(Black)));
    assert_eq!(b.board[2][7], Square::from(Piece::bishop(Black)));
    assert_eq!(b.board[2][8], Square::from(Piece::knight(Black)));
    assert_eq!(b.board[2][9], Square::from(Piece::rook(Black)));

    for i in BOARD_START..BOARD_END {
        assert_eq!(b.board[3][i], Square::from(Piece::pawn(Black)));
    }

    for i in 4..8 {
        for j in BOARD_START..BOARD_END {
            assert_eq!(b.board[i][j], Square::Empty);
        }
    }

    assert_eq!(b.board[9][2], Square::from(Piece::rook(White)));
    assert_eq!(b.board[9][3], Square::from(Piece::knight(White)));
    assert_eq!(b.board[9][4], Square::from(Piece::bishop(White)));
    assert_eq!(b.board[9][5], Square::from(Piece::queen(White)));
    assert_eq!(b.board[9][6], Square::from(Piece::king(White)));
    assert_eq!(b.board[9][7], Square::from(Piece::bishop(White)));
    assert_eq!(b.board[9][8], Square::from(Piece::knight(White)));
    assert_eq!(b.board[9][9], Square::from(Piece::rook(White)));

    for i in BOARD_START..BOARD_END {
        assert_eq!(b.board[8][i], Square::from(Piece::pawn(White)));
    }

    assert_eq!(b.zobrist_key, 321564624691785580);
}

#[test]
fn correct_en_passant_privileges() {
    let b = BoardState::from_fen("rnbqkbnr/pppppppp/8/8/4P3/8/PPPP1PPP/RNBQKBNR w KQkq e4 0 1").unwrap();
    assert_eq!(b.pawn_double_move.unwrap().0, BOARD_START + 4);
    assert_eq!(b.pawn_double_move.unwrap().1, BOARD_START + 4);
}

#[test]
fn correct_en_passant_privileges_black() {
    let b = BoardState::from_fen("rnbqkbnr/ppppppp1/8/7p/8/8/PPPPPPPP/RNBQKBNR w KQkq h5 0 1").unwrap();
    assert_eq!(b.pawn_double_move.unwrap().0, BOARD_START + 3);
    assert_eq!(b.pawn_double_move.unwrap().1, BOARD_START + 7);
}

#[test]
fn correct_king_location() {
    let b = BoardState::from_fen("rnbqkbnr/pppppppp/8/8/8/8/PPPPPPPP/RNBQKBNR w KQkq - 0 1").unwrap();
    assert_eq!(b.black_king_location, Point(2, 6));
    assert_eq!(b.white_king_location, Point(9, 6));
}

#[test]
fn correct_king_location_two() {
    let b = BoardState::from_fen("6rk/1b4np/5pp1/1p6/8/1P3NP1/1B3P1P/5RK1 w KQkq - 0 1").unwrap();
    assert_eq!(b.black_king_location, Point(2, 9));
    assert_eq!(b.white_king_location, Point(9, 8));
}

#[test]
fn correct_starting_player() {
    let mut b = BoardState::from_fen("rnbqkbnr/pppppppp/8/8/8/8/PPPPPPPP/RNBQKBNR w KQkq - 0 1").unwrap();
    assert_eq!(b.to_move, PieceColor::White);
    b = BoardState::from_fen("rnbqkbnr/pppppppp/8/8/8/8/PPPPPPPP/RNBQKBNR b KQkq - 0 1").unwrap();
    assert_eq!(b.to_move, PieceColor::Black);
}

#[test]
fn correct_castling_privileges() {
    let mut b = BoardState::from_fen("6rk/1b4np/5pp1/1p6/8/1P3NP1/1B3P1P/5RK1 w KQkq - 0 1").unwrap();
    assert!(b.black_king_side_castle);
    assert!(b.black_queen_side_castle);
    assert!(b.white_king_side_castle);
    assert!(b.white_queen_side_castle);

    b = BoardState::from_fen("6rk/1b4np/5pp1/1p6/8/1P3NP1/1B3P1P/5RK1 w - - 0 1").unwrap();
    assert!(!b.black_king_side_castle);
    assert!(!b.black_queen_side_castle);
    assert!(!b.white_king_side_castle);
    assert!(!b.white_queen_side_castle);

    b = BoardState::from_fen("6rk/1b4np/5pp1/1p6/8/1P3NP1/1B3P1P/5RK1 w Kq - 0 1").unwrap();
    assert!(!b.black_king_side_castle);
    assert!(b.black_queen_side_castle);
    assert!(b.white_king_side_castle);
    assert!(!b.white_queen_side_castle);
}

#[test]
fn random_pos() {
    let b = BoardState::from_fen("4R1B1/1kp5/1B1Q4/1P5p/1p2p1pK/8/3pP3/4N1b1 w - - 0 1").unwrap();
    assert_eq!(b.board[2][6], Square::from(Piece::rook(White)));
    assert_eq!(b.board[2][8], Square::from(Piece::bishop(White)));
    assert_eq!(b.board[3][3], Square::from(Piece::king(Black)));
    assert_eq!(b.board[3][4], Square::from(Piece::pawn(Black)));
    assert_eq!(b.board[4][3], Square::from(Piece::bishop(White)));
    assert_eq!(b.board[4][5], Square::from(Piece::queen(White)));
    assert_eq!(b.board[5][3], Square::from(Piece::pawn(White)));
    assert_eq!(b.board[5][9], Square::from(Piece::pawn(Black)));
    assert_eq!(b.board[6][3], Square::from(Piece::pawn(Black)));
    assert_eq!(b.board[6][6], Square::from(Piece::pawn(Black)));
    assert_eq!(b.board[6][8], Square::from(Piece::pawn(Black)));
    assert_eq!(b.board[6][9], Square::from(Piece::king(White)));
    assert_eq!(b.board[8][5], Square::from(Piece::pawn(Black)));
    assert_eq!(b.board[8][6], Square::from(Piece::pawn(White)));
    assert_eq!(b.board[9][6], Square::from(Piece::knight(White)));
    assert_eq!(b.board[9][8], Square::from(Piece::bishop(Black)));
}

#[test]
#[should_panic]
fn bad_fen_string() {
    BoardState::from_fen("this isn't a fen string").unwrap();
}

#[test]
#[should_panic]
fn bad_fen_string_bad_char() {
    BoardState::from_fen("rnbqkbnH/pppppppp/8/8/8/8/PPPPPPPP/RNBQKBNR w KQkq - 0 1").unwrap();
}

#[test]
#[should_panic]
fn bad_fen_string_too_many_chars() {
    BoardState::from_fen("rnbqkbnrrrrr/pppppppp/8/8/8/8/PPPPPPPP/RNBQKBNR w KQkq - 0 1").unwrap();
}

#[test]
fn default_fen_is_the_starting_position() {
    let a = BoardState::from_fen(DEFAULT_FEN_STRING).unwrap();
    let b = BoardState::from_fen("rnbqkbnr/pppppppp/8/8/8/8/PPPPPPPP/RNBQKBNR w KQkq - 0 1").unwrap();
    assert_eq!(a.board, b.board);
    assert_eq!(a.zobrist_key, b.zobrist_key);
}

#[test]
fn swapping_the_side_twice_restores_the_position() {
    let h = walleye::zobrist::ZobristHasher::create_zobrist_hasher();
    let b = BoardState::from_fen(DEFAULT_FEN_STRING).unwrap();
    let mut c = b;
    c.swap_color(&h);
    assert_eq!(c.to_move, Black);
    assert_ne!(c.zobrist_key, b.zobrist_key);
    c.swap_color(&h);
    assert_eq!(c.to_move, b.to_move);
    assert_eq!(c.zobrist_key, b.zobrist_key);
}

#[test]
fn moving_a_piece_and_back_restores_the_position() {
    let h = walleye::zobrist::ZobristHasher::create_zobrist_hasher();
    let b = BoardState::from_fen(DEFAULT_FEN_STRING).unwrap();
    let mut c = b;
    c.move_piece(Point(8, 6), Point(6, 6), &h);
    assert_eq!(c.board[6][6], Square::from(Piece::pawn(White)));
    assert_eq!(c.board[8][6], Square::Empty);
    c.move_piece(Point(6, 6), Point(8, 6), &h);
    assert_eq!(c.board, b.board);
    assert_eq!(c.zobrist_key, b.zobrist_key);
}
