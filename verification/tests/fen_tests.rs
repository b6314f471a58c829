use walleye::board::{BoardState, CastlingType, Piece, PieceColor, Point, Square};
use walleye::zobrist::ZobristHasher;
use walleye::fen::ParseError;

fn refusal(fen: &str) -> &'static str {
    match BoardState::from_fen(fen) {
        Ok(_) => panic!("accepted {}", fen),
        Err(e) => e,
    }
}

#[test]
fn fen_refusals_name_their_reason() {
    assert_eq!(refusal("this isn't a fen string"), ParseError::InvalidFen.message());
    assert_eq!(refusal("8/8/8/8/8/8/8/8 x - - 0 1"), ParseError::MissingPlayer.message());
    assert_eq!(refusal("8/8/8/8/8/8/8/8 w - - 256 1"), ParseError::InvalidHalfMove.message());
    assert_eq!(refusal("8/8/8/8/8/8/8/8 w - - 0 x"), ParseError::InvalidFullMove.message());
    assert_eq!(refusal("8/8/8/8/8/8/8 w - - 0 1"), ParseError::InvalidRowCount.message());
    assert_eq!(refusal("9/8/8/8/8/8/8/8 w - - 0 1"), ParseError::IndexOutOfBounds.message());
    assert_eq!(refusal("8/8/8/8/8/8/8/7H w - - 0 1"), ParseError::InvalidCharacter.message());
    assert_eq!(refusal("7/8/8/8/8/8/8/8 w - - 0 1"), ParseError::IncompleteRow.message());
    assert_eq!(refusal("8/8/8/8/8/8/8/8 w - abc 0 1"), ParseError::InvalidEnPassant.message());
}

#[test]
fn fen_error_messages() {
    assert_eq!(ParseError::InvalidFen.message(), "Could not parse fen string: Invalid fen string");
    assert_eq!(
        ParseError::InvalidRowCount.message(),
        "Could not parse fen string: Invalid number of rows provided, 8 expected"
    );
    assert_eq!(ParseError::InvalidRow.message(), "Invalid row");
}

#[test]
fn fen_trailing_line_break_is_ignored() {
    let a = BoardState::from_fen("8/8/8/8/8/8/8/4K3 b - - 0 1\r\n").unwrap();
    let b = BoardState::from_fen("8/8/8/8/8/8/8/4K3 b - - 0 1").unwrap();
    assert_eq!(a.board, b.board);
    assert_eq!(a.zobrist_key, b.zobrist_key);
    assert_ne!(a.zobrist_key, 0);
}

#[test]
fn fen_en_passant_target_that_is_no_square_is_dropped() {
    let b = BoardState::from_fen("8/8/8/8/8/8/8/4K3 w - z9 0 1").unwrap();
    assert_eq!(b.pawn_double_move, None);
}

#[test]
fn algebraic_refusals() {
    assert_eq!(Point::from_algebraic("a11"), Err("Invalid length for algebraic string"));
    assert_eq!(Point::from_algebraic("z1"), Err("Invalid column"));
    assert_eq!(Point::from_algebraic("a9"), Err("Invalid row"));
    assert_eq!(Point::from_algebraic("h8"), Ok(Point(2, 9)));
}

#[test]
fn algebraic_round_trip() {
    for name in ["a1", "b7", "e4", "h8", "d5"] {
        let p = Point::from_algebraic(name).unwrap();
        assert_eq!(p.to_algebraic(), name);
    }
    assert_eq!(Point(0, 0).to_algebraic(), "h1");
}

#[test]
fn simple_board_picture() {
    let b = BoardState::from_fen("8/8/8/8/8/8/8/R3K3 w - - 0 1").unwrap();
    let text = b.simple_board();
    assert!(text.starts_with("\na b c d e f g h\n. . . . . . . .  8\n"));
    assert!(text.ends_with("R . . . K . . .  1\n"));
}

#[test]
fn points_parse_and_print_through_std_traits() {
    assert_eq!("e4".parse::<Point>(), Ok(Point(6, 6)));
    assert_eq!("i4".parse::<Point>(), Err("Invalid column"));
    assert_eq!("ex".parse::<Point>(), Err("Invalid row"));
    assert_eq!(Point(6, 6).to_string(), "e4");
    assert_eq!(Square::from(Piece::queen(PieceColor::White)), Square::Full(Piece::queen(PieceColor::White)));
}

fn empty_board_key(fen: &str) -> u64 {
    BoardState::from_fen(fen).unwrap().zobrist_key
}

#[test]
fn castling_keys_are_the_keys_of_empty_boards_with_that_right() {
    let zh = ZobristHasher::create_zobrist_hasher();
    assert_eq!(zh.get_val_for_castling(CastlingType::WhiteKingSide), empty_board_key("8/8/8/8/8/8/8/8 w K - 0 1"));
    assert_eq!(zh.get_val_for_castling(CastlingType::WhiteQueenSide), empty_board_key("8/8/8/8/8/8/8/8 w Q - 0 1"));
    assert_eq!(zh.get_val_for_castling(CastlingType::BlackKingSide), empty_board_key("8/8/8/8/8/8/8/8 w k - 0 1"));
    assert_eq!(zh.get_val_for_castling(CastlingType::BlackQueenSide), empty_board_key("8/8/8/8/8/8/8/8 w q - 0 1"));
}

#[test]
fn en_passant_keys_are_the_keys_of_empty_boards_with_that_target() {
    let zh = ZobristHasher::create_zobrist_hasher();
    for file in 2..10usize {
        let name = (b'a' + (file - 2) as u8) as char;
        let fen = format!("8/8/8/8/8/8/8/8 w - {}3 0 1", name);
        assert_eq!(zh.get_val_for_en_passant(file), empty_board_key(&fen));
    }
    assert_eq!(zh.get_val_for_en_passant(6), empty_board_key("8/8/8/8/8/8/8/8 w - e3 0 1"));
}

#[test]
fn black_to_move_key_is_the_key_of_the_empty_board_with_black_to_move() {
    let zh = ZobristHasher::create_zobrist_hasher();
    assert_eq!(empty_board_key("8/8/8/8/8/8/8/8 w - - 0 1"), 0);
    assert_eq!(zh.get_black_to_move_val(), empty_board_key("8/8/8/8/8/8/8/8 b - - 0 1"));
}
