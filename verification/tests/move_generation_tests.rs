use walleye::board::{BoardState, Piece, PieceColor, PieceKind, Point};
use walleye::move_generation::{
    bishop_moves, can_castle, generate_moves, generate_moves_test, is_check, king_moves,
    knight_moves, mvv_lva, pawn_moves, pawn_moves_en_passant, queen_moves, rook_moves,
    MoveGenerationMode,
};
use walleye::zobrist::CastlingType;

use PieceColor::{Black, White};
use PieceKind::{Bishop, Knight, Pawn, Queen, Rook};

#[test]
fn check_sanity_test() {
    let b = BoardState::from_fen("8/8/8/8/3K4/8/8/8 w - - 0 1").unwrap();
    assert!(!is_check(&b, White));
}

#[test]
fn knight_checks() {
    let mut b = BoardState::from_fen("8/8/4n3/8/3K4/8/8/8 w - - 0 1").unwrap();
    assert!(is_check(&b, White));

    b = BoardState::from_fen("8/8/8/8/8/8/1RK5/nRB5 w - - 0 1").unwrap();
    assert!(is_check(&b, White));

    b = BoardState::from_fen("8/8/8/8/3k4/5N2/8/8 w - - 0 1").unwrap();
    assert!(is_check(&b, Black));

    b = BoardState::from_fen("8/8/8/8/3k4/5n2/8/7N w - - 0 1").unwrap();
    assert!(!is_check(&b, Black));

    b = BoardState::from_fen("8/8/2N5/8/3k4/5n2/8/7N w - - 0 1").unwrap();
    assert!(is_check(&b, Black));
}

#[test]
fn pawn_checks() {
    let mut b = BoardState::from_fen("8/8/8/4k3/3P4/8/8/8 w - - 0 1").unwrap();
    assert!(is_check(&b, Black));

    b = BoardState::from_fen("8/8/8/4k3/5P2/8/8/8 w - - 0 1").unwrap();
    assert!(is_check(&b, Black));

    b = BoardState::from_fen("8/8/8/4k3/4P3/8/8/8 w - - 0 1").unwrap();
    assert!(!is_check(&b, Black));

    b = BoardState::from_fen("8/8/3PPP2/4k3/8/8/8/8 w - - 0 1").unwrap();
    assert!(!is_check(&b, Black));

    b = BoardState::from_fen("8/8/8/8/8/5p2/6K1/8 w - - 0 1").unwrap();
    assert!(is_check(&b, White));

    b = BoardState::from_fen("8/8/8/8/8/7p/6K1/8 w - - 0 1").unwrap();
    assert!(is_check(&b, White));

    b = BoardState::from_fen("8/8/8/8/8/6p1/6K1/8 w - - 0 1").unwrap();
    assert!(!is_check(&b, White));

    b = BoardState::from_fen("8/8/8/8/8/6K1/5ppp/8 w - - 0 1").unwrap();
    assert!(!is_check(&b, White));
}

#[test]
fn rook_checks() {
    let mut b = BoardState::from_fen("8/8/8/R3k3/8/8/8/8 w - - 0 1").unwrap();
    assert!(is_check(&b, Black));

    b = BoardState::from_fen("8/8/8/R1r1k3/8/8/8/8 w - - 0 1").unwrap();
    assert!(!is_check(&b, Black));

    b = BoardState::from_fen("8/8/8/R1r1k3/8/8/8/4R3 w - - 0 1").unwrap();
    assert!(is_check(&b, Black));

    b = BoardState::from_fen("4R3/8/8/R1r5/8/8/8/4k3 w - - 0 1").unwrap();
    assert!(is_check(&b, Black));

    b = BoardState::from_fen("8/8/8/R1r5/8/8/7R/4k3 w - - 0 1").unwrap();
    assert!(!is_check(&b, Black));

    b = BoardState::from_fen("4R3/8/8/8/8/3r4/R3K2R/2r1Rr2 w - - 0 1").unwrap();
    assert!(!is_check(&b, White));

    b = BoardState::from_fen("4R3/8/8/8/4K3/3r4/R6R/2r1rr2 w - - 0 1").unwrap();
    assert!(is_check(&b, White));

    b = BoardState::from_fen("4R3/8/8/8/4K2r/3r4/R6R/2r2r2 w - - 0 1").unwrap();
    assert!(is_check(&b, White));

    b = BoardState::from_fen("4r3/8/8/4B3/r2QKP1r/3rR3/R6R/2r1rr2 w - - 0 1").unwrap();
    assert!(!is_check(&b, White));
}

#[test]
fn bishop_checks() {
    let mut b = BoardState::from_fen("8/8/8/1B6/8/8/8/5k2 w - - 0 1").unwrap();
    assert!(is_check(&b, Black));

    b = BoardState::from_fen("8/8/2B1B3/1B3B2/1B1k1B2/8/8/8 w - - 0 1").unwrap();
    assert!(!is_check(&b, Black));

    b = BoardState::from_fen("8/8/8/8/5k2/8/8/2B5 w - - 0 1").unwrap();
    assert!(is_check(&b, Black));

    b = BoardState::from_fen("8/8/8/8/5k2/4n3/8/2B5 w - - 0 1").unwrap();
    assert!(!is_check(&b, Black));

    b = BoardState::from_fen("8/8/8/8/3K4/8/8/6b1 w - - 0 1").unwrap();
    assert!(is_check(&b, White));

    b = BoardState::from_fen("8/8/8/8/3K4/4r3/8/6b1 w - - 0 1").unwrap();
    assert!(!is_check(&b, White));

    b = BoardState::from_fen("8/8/8/8/3K4/4r3/8/b5b1 w - - 0 1").unwrap();
    assert!(is_check(&b, White));

    b = BoardState::from_fen("8/8/8/8/3K4/2P1r3/8/b5b1 w - - 0 1").unwrap();
    assert!(!is_check(&b, White));
}

#[test]
fn queen_checks() {
    let mut b = BoardState::from_fen("8/8/8/8/3k1Q2/8/8/8 w - - 0 1").unwrap();
    assert!(is_check(&b, Black));

    b = BoardState::from_fen("8/8/2k5/8/8/8/6Q1/8 w - - 0 1").unwrap();
    assert!(is_check(&b, Black));

    b = BoardState::from_fen("8/8/2K5/8/3q4/8/8/8 w - - 0 1").unwrap();
    assert!(!is_check(&b, White));

    b = BoardState::from_fen("8/8/1K6/2Q5/3q4/8/8/8 w - - 0 1").unwrap();
    assert!(!is_check(&b, White));

    b = BoardState::from_fen("8/5Q2/1K6/8/3q4/8/8/8 w - - 0 1").unwrap();
    assert!(is_check(&b, White));

    b = BoardState::from_fen("8/5Q2/1K6/1P6/8/8/1q6/8 w - - 0 1").unwrap();
    assert!(!is_check(&b, White));

    b = BoardState::from_fen("8/2P2Q2/1K6/8/8/8/1q6/8 w - - 0 1").unwrap();
    assert!(is_check(&b, White));
}

fn targets(
    f: fn(Piece, usize, usize, &BoardState, &mut Vec<Point>, MoveGenerationMode),
    fen: &str,
    piece: Piece,
    row: usize,
    col: usize,
    mode: MoveGenerationMode,
) -> usize {
    let b = BoardState::from_fen(fen).unwrap();
    let mut ret: Vec<Point> = Vec::new();
    f(piece, row, col, &b, &mut ret, mode);
    ret.len()
}

const ALL: MoveGenerationMode = MoveGenerationMode::AllMoves;
const CAPTURES: MoveGenerationMode = MoveGenerationMode::CapturesOnly;

// Knight tests

#[test]
fn knight_moves_empty_board() {
    assert_eq!(targets(knight_moves, "8/8/8/8/3N4/8/8/8 w - - 0 1", Piece::knight(White), 6, 5, ALL), 8);
}

#[test]
fn knight_moves_corner() {
    assert_eq!(targets(knight_moves, "N7/8/8/8/8/8/8/8 w - - 0 1", Piece::knight(White), 2, 2, ALL), 2);
}

#[test]
fn knight_moves_with_other_pieces_with_capture() {
    assert_eq!(
        targets(knight_moves, "8/8/5n2/3NQ3/2K2P2/8/8/8 w - - 0 1", Piece::knight(White), 5, 5, ALL),
        7
    );
}

// Pawn tests - white pawn

#[test]
fn white_pawn_double_push() {
    assert_eq!(targets(pawn_moves, "8/8/8/8/8/8/P7/8 w - - 0 1", Piece::pawn(White), 8, 2, ALL), 2);
}

#[test]
fn white_pawn_has_moved() {
    assert_eq!(targets(pawn_moves, "8/8/8/8/8/3P4/8/8 w - - 0 1", Piece::pawn(White), 7, 5, ALL), 1);
}

#[test]
fn white_pawn_cant_move_black_piece_block() {
    assert_eq!(targets(pawn_moves, "8/8/8/8/3r4/3P4/8/8 w - - 0 1", Piece::pawn(White), 7, 5, ALL), 0);
}

#[test]
fn white_pawn_cant_move_white_piece_block() {
    assert_eq!(targets(pawn_moves, "8/8/8/8/3K4/3P4/8/8 w - - 0 1", Piece::pawn(White), 7, 5, ALL), 0);
}

#[test]
fn white_pawn_with_two_captures_and_start() {
    assert_eq!(targets(pawn_moves, "8/8/8/8/8/n1q5/1P6/8 w - - 0 1", Piece::pawn(White), 8, 3, ALL), 4);
}

#[test]
fn white_pawn_with_one_capture() {
    assert_eq!(targets(pawn_moves, "8/8/Q1b5/1P6/8/8/8/8 w - - 0 1", Piece::pawn(White), 5, 3, ALL), 2);
}

#[test]
fn white_pawn_double_push_piece_in_front() {
    assert_eq!(targets(pawn_moves, "8/8/8/8/8/b7/P7/8 w - - 0 1", Piece::pawn(White), 8, 2, ALL), 0);
}

#[test]
fn white_pawn_en_passant_left() {
    let b = BoardState::from_fen("8/8/8/3pP3/8/8/8/8 w - d6 0 1").unwrap();
    assert!(pawn_moves_en_passant(Piece::pawn(White), 5, 6, &b).is_some());
}

#[test]
fn white_pawn_en_passant_right() {
    let b = BoardState::from_fen("8/8/8/4Pp2/8/8/8/8 w - f6 0 1").unwrap();
    assert!(pawn_moves_en_passant(Piece::pawn(White), 5, 6, &b).is_some());
}

#[test]
fn white_pawn_en_passant_right_2() {
    let b = BoardState::from_fen("7K/8/7k/1Pp5/8/8/8/8 w - c6 0 1").unwrap();
    assert!(pawn_moves_en_passant(Piece::pawn(White), 5, 3, &b).is_some());
}

#[test]
fn white_pawn_en_passant_wrong_row() {
    let b = BoardState::from_fen("8/8/8/8/4Pp2/8/8/8 w - f4 0 1").unwrap();
    assert!(pawn_moves_en_passant(Piece::pawn(White), 6, 6, &b).is_none());
}

#[test]
fn white_en_passant_capture_not_available() {
    let b = BoardState::from_fen("8/8/8/4Pp2/8/8/8/8 w - - 0 1").unwrap();
    assert!(pawn_moves_en_passant(Piece::pawn(White), 5, 6, &b).is_none());
}

// Pawn tests - black pawn

#[test]
fn black_pawn_double_push() {
    assert_eq!(targets(pawn_moves, "8/p7/8/8/8/8/8/8 w - - 0 1", Piece::pawn(Black), 3, 2, ALL), 2);
}

#[test]
fn black_pawn_has_moved() {
    assert_eq!(targets(pawn_moves, "8/8/8/3p4/8/8/8/8 w - - 0 1", Piece::pawn(Black), 5, 5, ALL), 1);
}

#[test]
fn black_pawn_cant_move_white_piece_block() {
    assert_eq!(targets(pawn_moves, "8/3p4/3R4/8/8/8/8/8 w - - 0 1", Piece::pawn(Black), 3, 5, ALL), 0);
}

#[test]
fn black_pawn_with_two_captures_and_start() {
    assert_eq!(targets(pawn_moves, "8/3p4/2R1R3/8/8/8/8/8 w - - 0 1", Piece::pawn(Black), 3, 5, ALL), 4);
}

#[test]
fn black_pawn_with_one_capture() {
    assert_eq!(targets(pawn_moves, "8/3p4/3qR3/8/8/8/8/8 w - - 0 1", Piece::pawn(Black), 3, 5, ALL), 1);
}

#[test]
fn black_pawn_en_passant_left() {
    let b = BoardState::from_fen("8/8/8/8/1Pp5/8/8/8 w - b3 0 1").unwrap();
    assert!(pawn_moves_en_passant(Piece::pawn(Black), 6, 4, &b).is_some());
}

#[test]
fn black_pawn_en_passant_right() {
    let b = BoardState::from_fen("8/8/8/8/pP6/8/8/8 w - b3 0 1").unwrap();
    assert!(pawn_moves_en_passant(Piece::pawn(Black), 6, 2, &b).is_some());
}

#[test]
fn black_pawn_en_passant_wrong_row() {
    let b = BoardState::from_fen("8/8/8/pP6/8/8/8/8 w - b4 0 1").unwrap();
    assert!(pawn_moves_en_passant(Piece::pawn(Black), 5, 2, &b).is_none());
}

#[test]
fn black_en_passant_capture_not_available() {
    let b = BoardState::from_fen("8/8/8/8/pP6/8/8/8 w - - 0 1").unwrap();
    assert!(pawn_moves_en_passant(Piece::pawn(Black), 6, 2, &b).is_none());
}

// King tests

#[test]
fn king_empty_board_center() {
    assert_eq!(targets(king_moves, "8/8/8/8/3K4/8/8/k7 w - - 0 1", Piece::king(White), 6, 5, ALL), 8);
}

#[test]
fn king_start_pos() {
    assert_eq!(targets(king_moves, "8/8/8/8/8/8/8/4K3 w - - 0 1", Piece::king(White), 9, 6, ALL), 5);
}

#[test]
fn king_start_pos_other_pieces() {
    assert_eq!(targets(king_moves, "8/8/8/8/8/8/3Pn3/3QKB2 w - - 0 1", Piece::king(White), 9, 6, ALL), 2);
}

#[test]
fn king_black_other_pieces() {
    assert_eq!(targets(king_moves, "8/8/8/8/8/3Pn3/3QkB2/3R1q2 w - - 0 1", Piece::king(Black), 8, 6, ALL), 6);
}

// Rook tests

#[test]
fn rook_center_of_empty_board() {
    assert_eq!(targets(rook_moves, "8/8/8/8/3R4/8/8/8 w - - 0 1", Piece::rook(White), 6, 5, ALL), 14);
}

#[test]
fn rook_center_of_board() {
    assert_eq!(targets(rook_moves, "8/8/8/3q4/2kRp3/3b4/8/8 w - - 0 1", Piece::rook(White), 6, 5, ALL), 4);
}

#[test]
fn rook_center_of_board_with_white_pieces() {
    assert_eq!(targets(rook_moves, "7p/3N4/8/4n3/2kR4/3b4/8/8 w - - 0 1", Piece::rook(White), 6, 5, ALL), 8);
}

#[test]
fn rook_corner() {
    assert_eq!(targets(rook_moves, "7p/3N4/K7/4n3/2kR4/3b4/8/7R w - - 0 1", Piece::rook(White), 9, 9, ALL), 14);
}

#[test]
fn black_rook_center_of_board_with_white_pieces() {
    assert_eq!(targets(rook_moves, "7p/3N4/8/4n3/2kr4/3b4/8/K7 w - - 0 1", Piece::rook(Black), 6, 5, ALL), 7);
}

// Bishop tests

#[test]
fn black_bishop_center_empty_board() {
    assert_eq!(targets(bishop_moves, "8/8/8/3b4/8/8/8/8 w - - 0 1", Piece::bishop(Black), 5, 5, ALL), 13);
}

#[test]
fn black_bishop_center_with_captures() {
    assert_eq!(targets(bishop_moves, "6P1/8/8/3b4/8/1R6/8/3Q4 w - - 0 1", Piece::bishop(Black), 5, 5, ALL), 12);
}

#[test]
fn black_bishop_center_with_captures_and_black_pieces() {
    assert_eq!(
        targets(bishop_moves, "6P1/8/2Q5/3b4/2k1n3/1R6/8/b2Q4 w - - 0 1", Piece::bishop(Black), 5, 5, ALL),
        4
    );
}

#[test]
fn white_bishop_center_with_captures_and_white_pieces() {
    assert_eq!(targets(bishop_moves, "8/8/8/4r3/5B2/8/3Q4/8 w - - 0 1", Piece::bishop(White), 6, 7, ALL), 6);
}

// Queen tests

#[test]
fn white_queen_empty_board() {
    assert_eq!(targets(queen_moves, "8/8/8/8/3Q4/8/8/8 w - - 0 1", Piece::queen(White), 6, 5, ALL), 27);
}

#[test]
fn white_queen_cant_move() {
    assert_eq!(targets(queen_moves, "8/8/8/2NBR3/2PQR3/2RRR3/8/8 w - - 0 1", Piece::queen(White), 6, 5, ALL), 0);
}

#[test]
fn white_queen_with_other_piece() {
    assert_eq!(targets(queen_moves, "8/6r1/8/8/3Q4/5N2/8/6P1 w - - 0 1", Piece::queen(White), 6, 5, ALL), 25);
}

// Castling tests

fn castle(fen: &str, t: CastlingType) -> bool {
    let b = BoardState::from_fen(fen).unwrap();
    can_castle(&b, &t)
}

#[test]
fn white_king_side_castle() {
    assert!(castle("8/8/8/8/8/8/8/4K2R w KQkq - 0 1", CastlingType::WhiteKingSide));
    assert!(castle("8/8/2b5/8/8/6P1/5P1P/4K2R w KQkq - 0 1", CastlingType::WhiteKingSide));
    // Can't castle out of check
    assert!(!castle("4r3/8/2b5/8/8/6P1/5P1P/4K2R w KQkq - 0 1", CastlingType::WhiteKingSide));
    // Can't castle through check
    assert!(!castle("8/8/8/8/8/6Pb/5P1P/4K2R w KQkq - 0 1", CastlingType::WhiteKingSide));
    // Can't castle with pieces in way
    assert!(!castle("8/8/8/8/8/6PN/5P1P/4KP1R w KQkq - 0 1", CastlingType::WhiteKingSide));
    // Can't castle with pieces in way 2
    assert!(!castle("8/8/8/8/8/6PN/5P1P/4K1PR w KQkq - 0 1", CastlingType::WhiteKingSide));
}

#[test]
fn white_queen_side_castle() {
    assert!(castle("8/8/8/8/8/8/8/R3K3 w KQkq - 0 1", CastlingType::WhiteQueenSide));
    assert!(castle("8/8/8/8/8/2P5/PP1P4/R3K1N1 w KQkq - 0 1", CastlingType::WhiteQueenSide));
    // Can't castle out of check
    assert!(!castle("8/8/8/8/8/2P2n2/PP1P4/R3K1N1 w KQkq - 0 1", CastlingType::WhiteQueenSide));
    // Can't castle through check
    assert!(!castle("8/8/8/8/8/2n5/PP1P4/R3K1N1 w KQkq - 0 1", CastlingType::WhiteQueenSide));
    // Can't castle with pieces in way
    assert!(!castle("8/8/8/8/8/2P5/PP1P4/R2QK1N1 w KQkq - 0 1", CastlingType::WhiteQueenSide));
    // Can't castle with pieces in way 2
    assert!(!castle("8/8/8/8/8/2P5/PP1P4/R1Q1K1N1 w KQkq - 0 1", CastlingType::WhiteQueenSide));
    // Can't castle with pieces in way 3
    assert!(!castle("8/8/8/8/8/2P5/PP1P4/RQ2K1N1 w KQkq - 0 1", CastlingType::WhiteQueenSide));
}

#[test]
fn black_king_side_castle() {
    assert!(castle("1p2k2r/8/8/8/8/8/8/8 w KQkq - 0 1", CastlingType::BlackKingSide));
    assert!(castle("1p2k2r/4bp1p/6p1/8/8/8/8/1P4P1 w KQkq - 0 1", CastlingType::BlackKingSide));
    // Can't castle out of check
    assert!(!castle("1p2k2r/4bp1p/6p1/8/B7/8/8/1P4P1 w KQkq - 0 1", CastlingType::BlackKingSide));
    // Can't castle through check
    assert!(!castle("1p2k2r/4bp1p/6pB/8/8/8/8/1P4P1 w KQkq - 0 1", CastlingType::BlackKingSide));
    // Can't castle with pieces in way
    assert!(!castle("1p2k1nr/4bp1p/6pn/8/8/8/8/1P4P1 w KQkq - 0 1", CastlingType::BlackKingSide));
    // Can't castle with pieces in way 2
    assert!(!castle("1p2kN1r/4bp1p/6pn/3n4/8/8/8/1P4P1 w KQkq - 0 1", CastlingType::BlackKingSide));
}

#[test]
fn black_queen_side_castle() {
    assert!(castle("r3k3/8/8/8/8/8/8/8 w KQkq - 0 1", CastlingType::BlackQueenSide));
    assert!(castle("r3k3/qpb5/3n4/8/8/8/8/8 w KQkq - 0 1", CastlingType::BlackQueenSide));
    // Can't castle out of check
    assert!(!castle("r3k3/qpb5/3n4/8/8/8/8/4Q3 w KQkq - 0 1", CastlingType::BlackQueenSide));
    // Can't castle through check
    assert!(!castle("r3k3/qpb5/3n4/8/7Q/8/8/8 w KQkq - 0 1", CastlingType::BlackQueenSide));
    // Can't castle with pieces in way
    assert!(!castle("r2Pk3/qpb5/3n4/8/8/8/8/P7 w KQkq - 0 1", CastlingType::BlackQueenSide));
    // Can't castle with pieces in way 2
    assert!(!castle("r1p1k3/qpb5/3n4/8/8/8/8/P7 w KQkq - 0 1", CastlingType::BlackQueenSide));
    // Can't castle with pieces in way 3
    assert!(!castle("rn2k3/qpb5/3n4/8/8/8/8/P7 w KQkq - 0 1", CastlingType::BlackQueenSide));
}

#[test]
fn generate_only_captures_queen() {
    assert_eq!(targets(queen_moves, "q3b3/1Q3n2/8/8/1R6/8/8/p6b w KQkq - 0 1", Piece::queen(White), 3, 3, CAPTURES), 3);
}

#[test]
fn generate_only_captures_bishop() {
    assert_eq!(targets(bishop_moves, "q3b3/1B6/8/8/R7/8/8/p6b w KQkq - 0 1", Piece::bishop(White), 3, 3, CAPTURES), 2);
}

#[test]
fn generate_only_captures_rook() {
    assert_eq!(targets(rook_moves, "R3b3/8/8/8/R7/8/8/p7 w KQkq - 0 1", Piece::rook(White), 2, 2, CAPTURES), 1);
}

#[test]
fn generate_only_captures_king() {
    assert_eq!(targets(king_moves, "q3b3/1Kr2n2/1B6/8/1R6/8/8/p6b w KQkq - 0 1", Piece::king(White), 3, 3, CAPTURES), 2);
}

#[test]
fn generate_only_captures_knight() {
    assert_eq!(targets(knight_moves, "q3b3/1Nr2n2/1B6/2b5/1R6/8/8/p7 w KQkq - 0 1", Piece::knight(White), 3, 3, CAPTURES), 1);
}

#[test]
fn generate_only_captures_pawn() {
    assert_eq!(targets(pawn_moves, "q3b3/1Pr2n2/1B6/2b5/1R6/8/8/p7 w KQkq - 0 1", Piece::knight(White), 3, 3, CAPTURES), 1);
}

#[test]
fn only_captures_correctly_counted() {
    let b = BoardState::from_fen("rnbqkbnr/pppppppp/8/8/8/8/PPPPPPPP/RNBQKBNR w KQkq - 0 1").unwrap();
    assert_eq!(generate_moves(&b, MoveGenerationMode::CapturesOnly).len(), 0);

    let b = BoardState::from_fen("rnbqkbnr/pppppppp/2N5/8/8/8/PPPPPPPP/RNBQKBNR w KQkq - 0 1").unwrap();
    assert_eq!(generate_moves(&b, MoveGenerationMode::CapturesOnly).len(), 4);

    let b = BoardState::from_fen("K1k4p/8/8/8/8/8/8/B6R w KQkq - 0 1").unwrap();
    assert_eq!(generate_moves(&b, MoveGenerationMode::CapturesOnly).len(), 2);
}

#[test]
fn mvv_lva_sanity() {
    assert!(mvv_lva(Pawn.index(), Pawn.index()) > mvv_lva(Pawn.index(), Bishop.index()));
    assert!(mvv_lva(Rook.index(), Pawn.index()) > mvv_lva(Knight.index(), Bishop.index()));
    assert!(mvv_lva(Queen.index(), Knight.index()) > mvv_lva(Rook.index(), Bishop.index()));
    assert!(mvv_lva(Queen.index(), Queen.index()) > mvv_lva(Rook.index(), Rook.index()));
}

#[test]
fn mvv_lva_values() {
    assert_eq!(mvv_lva(1, 0), 50);
    assert_eq!(mvv_lva(5, 5), 15);
    assert_eq!(mvv_lva(0, 3), 0);
    assert_eq!(mvv_lva(6, 1), 0);
}

// Perft tests - move generation. Table of values taken from https://www.chessprogramming.org/Perft_Results

#[test]
fn perft_test_position_1() {
    let mut moves_states = [0; 5];
    let b = BoardState::from_fen("rnbqkbnr/pppppppp/8/8/8/8/PPPPPPPP/RNBQKBNR w KQkq - 0 1").unwrap();
    generate_moves_test(&b, 0, 5, &mut moves_states, false);
    assert_eq!(moves_states[0], 20);
    assert_eq!(moves_states[1], 400);
    assert_eq!(moves_states[2], 8902);
    assert_eq!(moves_states[3], 197281);
    assert_eq!(moves_states[4], 4865609);
}

#[test]
fn perft_test_position_2() {
    let mut moves_states = [0; 4];
    let b = BoardState::from_fen("r3k2r/p1ppqpb1/bn2pnp1/3PN3/1p2P3/2N2Q1p/PPPBBPPP/R3K2R w KQkq - 0 1").unwrap();
    generate_moves_test(&b, 0, 4, &mut moves_states, false);
    assert_eq!(moves_states[0], 48);
    assert_eq!(moves_states[1], 2039);
    assert_eq!(moves_states[2], 97862);
    assert_eq!(moves_states[3], 4085603);
}

#[test]
fn perft_test_position_3() {
    let mut moves_states = [0; 5];
    let b = BoardState::from_fen("8/2p5/3p4/KP5r/1R3p1k/8/4P1P1/8 w - - 0 1").unwrap();
    generate_moves_test(&b, 0, 5, &mut moves_states, false);
    assert_eq!(moves_states[0], 14);
    assert_eq!(moves_states[1], 191);
    assert_eq!(moves_states[2], 2812);
    assert_eq!(moves_states[3], 43238);
    assert_eq!(moves_states[4], 674624);
}

#[test]
fn perft_test_position_4() {
    let mut moves_states = [0; 4];
    let b = BoardState::from_fen("r3k2r/Pppp1ppp/1b3nbN/nP6/BBP1P3/q4N2/Pp1P2PP/R2Q1RK1 w kq - 0 1").unwrap();
    generate_moves_test(&b, 0, 4, &mut moves_states, false);
    assert_eq!(moves_states[0], 6);
    assert_eq!(moves_states[1], 264);
    assert_eq!(moves_states[2], 9467);
    assert_eq!(moves_states[3], 422333);
}

#[test]
fn perft_test_position_4_mirrored() {
    let mut moves_states = [0; 4];
    let b = BoardState::from_fen("r2q1rk1/pP1p2pp/Q4n2/bbp1p3/Np6/1B3NBn/pPPP1PPP/R3K2R b KQ - 0 1").unwrap();
    generate_moves_test(&b, 0, 4, &mut moves_states, false);
    assert_eq!(moves_states[0], 6);
    assert_eq!(moves_states[1], 264);
    assert_eq!(moves_states[2], 9467);
    assert_eq!(moves_states[3], 422333);
}

#[test]
fn perft_test_position_5() {
    let mut moves_states = [0; 4];
    let b = BoardState::from_fen("rnbq1k1r/pp1Pbppp/2p5/8/2B5/8/PPP1NnPP/RNBQK2R w KQ - 1 8").unwrap();
    generate_moves_test(&b, 0, 4, &mut moves_states, false);
    assert_eq!(moves_states[0], 44);
    assert_eq!(moves_states[1], 1486);
    assert_eq!(moves_states[2], 62379);
    assert_eq!(moves_states[3], 2103487);
}

#[test]
fn perft_test_position_6() {
    let mut moves_states = [0; 4];
    let b = BoardState::from_fen("r4rk1/1pp1qppp/p1np1n2/2b1p1B1/2B1P1b1/P1NP1N2/1PP1QPPP/R4RK1 w - - 0 10").unwrap();
    generate_moves_test(&b, 0, 4, &mut moves_states, false);
    assert_eq!(moves_states[0], 46);
    assert_eq!(moves_states[1], 2079);
    assert_eq!(moves_states[2], 89890);
    assert_eq!(moves_states[3], 3894594);
}

#[test]
fn generated_positions_hand_the_move_over() {
    let b = BoardState::from_fen("rnbqkbnr/pppppppp/8/8/8/8/PPPPPPPP/RNBQKBNR w KQkq - 0 1").unwrap();
    let moves = generate_moves(&b, MoveGenerationMode::AllMoves);
    assert_eq!(moves.len(), 20);
    for m in &moves {
        assert_eq!(m.to_move, Black);
        assert!(m.last_move.is_some());
        assert!(!is_check(m, White));
    }
}

#[test]
fn generated_moves_are_distinct() {
    let fens = [
        "rnbqkbnr/pppppppp/8/8/8/8/PPPPPPPP/RNBQKBNR w KQkq - 0 1",
        "r3k2r/p1ppqpb1/bn2pnp1/3PN3/1p2P3/2N2Q1p/PPPBBPPP/R3K2R w KQkq - 0 1",
        "8/P7/8/8/8/8/7k/K7 w - - 0 1",
    ];
    for fen in fens {
        let b = BoardState::from_fen(fen).unwrap();
        let moves = generate_moves(&b, MoveGenerationMode::AllMoves);
        for i in 0..moves.len() {
            for j in (i + 1)..moves.len() {
                let same = moves[i].last_move == moves[j].last_move
                    && moves[i].pawn_promotion == moves[j].pawn_promotion;
                assert!(!same);
            }
        }
    }
}

#[test]
fn generated_moves_leave_the_mover_out_of_check() {
    let fens = [
        "r3k2r/p1ppqpb1/bn2pnp1/3PN3/1p2P3/2N2Q1p/PPPBBPPP/R3K2R w KQkq - 0 1",
        "8/2p5/3p4/KP5r/1R3p1k/8/4P1P1/8 w - - 0 1",
        "r3k2r/Pppp1ppp/1b3nbN/nP6/BBP1P3/q4N2/Pp1P2PP/R2Q1RK1 w kq - 0 1",
    ];
    for fen in fens {
        let b = BoardState::from_fen(fen).unwrap();
        for m in generate_moves(&b, MoveGenerationMode::AllMoves) {
            assert!(!is_check(&m, b.to_move));
        }
    }
}

#[test]
fn castling_next_to_the_enemy_king_is_not_generated() {
    let b = BoardState::from_fen("8/8/8/8/8/8/6k1/4K2R w K - 0 1").unwrap();
    let moves = generate_moves(&b, MoveGenerationMode::AllMoves);
    assert!(!moves.is_empty());
    for m in &moves {
        assert!(m.last_move != Some((Point(9, 6), Point(9, 8))));
        assert!(!is_check(m, b.to_move));
    }
}
