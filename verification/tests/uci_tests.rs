use walleye::board::{BoardState, Piece, PieceColor, PieceKind, Point, Square, BOARD_END, BOARD_START};
use walleye::draw_table::DrawTable;
use walleye::uci::{best_move_message, make_move, parse_go_command, play_out_position, uci_request, UciRequest};
use walleye::zobrist::ZobristHasher;

use PieceColor::{Black, White};

fn pawn_count(board: &BoardState) -> u32 {
    let mut pawn_count = 0;
    for i in BOARD_START..BOARD_END {
        for j in BOARD_START..BOARD_END {
            if let Square::Full(Piece { kind, .. }) = board.board[i][j] {
                if kind == PieceKind::Pawn {
                    pawn_count += 1;
                }
            }
        }
    }
    pawn_count
}

#[test]
fn can_parse_go_command_no_inc() {
    let buffer = "go wtime 12345 btime 300000 movestogo 40";
    let commands: Vec<&str> = buffer.split(' ').collect();
    let res = parse_go_command(&commands);
    assert_eq!(res.winc, 0);
    assert_eq!(res.binc, 0);
    assert_eq!(res.wtime, 12345);
    assert_eq!(res.btime, 300000);
    assert_eq!(res.movestogo, Some(40));
}

#[test]
fn can_parse_go_command() {
    let buffer = "go wtime 300000 btime 300000 winc 1 binc 2 movestogo 40";
    let commands: Vec<&str> = buffer.split(' ').collect();
    let res = parse_go_command(&commands);
    assert_eq!(res.winc, 1);
    assert_eq!(res.binc, 2);
    assert_eq!(res.wtime, 300000);
    assert_eq!(res.btime, 300000);
    assert_eq!(res.movestogo, Some(40));
}

#[test]
fn can_parse_go_command_no_moves_to_go() {
    let buffer = "go wtime 300000 btime 300000 winc 1 binc 2";
    let commands: Vec<&str> = buffer.split(' ').collect();
    let res = parse_go_command(&commands);
    assert_eq!(res.winc, 1);
    assert_eq!(res.binc, 2);
    assert_eq!(res.wtime, 300000);
    assert_eq!(res.btime, 300000);
    assert_eq!(res.movestogo, None);
}

#[test]
fn parse_go_command_edge_cases() {
    let commands: Vec<&str> = "go infinite wtime -5 btime +7 movestogo".split(' ').collect();
    let res = parse_go_command(&commands);
    assert_eq!(res.wtime, -5);
    assert_eq!(res.btime, 7);
    assert_eq!(res.movestogo, None);
    let commands: Vec<&str> = vec!["go"];
    let res = parse_go_command(&commands);
    assert_eq!(res.wtime, 0);
}

#[test]
fn en_passant_capture_parsed_correctly_black() {
    let mut board = BoardState::from_fen("8/1k6/8/8/7p/8/1K4P1/8 w - - 0 1").unwrap();
    let zobrist_hasher = ZobristHasher::create_zobrist_hasher();
    make_move(&mut board, "g2g4", &zobrist_hasher);
    make_move(&mut board, "h4g3", &zobrist_hasher);
    assert_eq!(board.board[7][8], Square::from(Piece::pawn(Black)));
    assert_eq!(pawn_count(&board), 1);
}

#[test]
fn en_passant_capture_parsed_correctly_white() {
    let mut board = BoardState::from_fen("8/1k4p1/8/5P2/8/8/1K6/8 b - - 0 1").unwrap();
    let zobrist_hasher = ZobristHasher::create_zobrist_hasher();
    make_move(&mut board, "g7g5", &zobrist_hasher);
    make_move(&mut board, "f5g6", &zobrist_hasher);
    assert_eq!(board.board[4][8], Square::from(Piece::pawn(White)));
    assert_eq!(pawn_count(&board), 1);
}

const LONG_GAME: &str = "position startpos moves g1f3 g8f6 d2d4 d7d5 e2e3 e7e6 f1d3 b8c6 b1c3 f8e7 e1g1 e8g8 a2a3 h7h6 b2b4 a7a6 c1b2 e7d6 a1c1 b7b5 h2h3 c8b7 f1e1 f8e8 g2g3 d8d7 e3e4 e6e5 c3d5 f6d5 e4d5 c6d4 f3d4 e5d4 d1h5 d6e7 b2d4 d7d5 h5d5 b7d5 c2c4 b5c4 d3c4 d5c4 c1c4 e7d6 e1e8 a8e8 c4c6 e8e1 g1g2 e1d1 d4e3 d1a1 c6a6 d6b4 a3a4 h6h5 a6a8 g8h7 a8a7 h7g6 a7c7 a1a4 c7c4 g6f6 e3d2 b4d2 c4a4 d2c3 g2f3 f6e6 f3e4 f7f5 e4e3 e6f7 e3f4 c3e1 f2f3 g7g6 a4a7 f7e6 f4g5 e1g3 a7a6 e6e5 g5g6 e5d4 a6e6 h5h4 g6f5 d4c3 e6e8 g3f2 e8d8 c3c4 f5g4 f2e1 f3f4 c4b3 f4f5 e1c3 g4g5 c3a5 d8e8 a5d2 g5h4 d2c3 h4g5 b3c4 f5f6 c3b2 f6f7 b2a3 g5g6 c4d5 h3h4 d5c4 h4h5 a3d6 h5h6 d6f8 e8f8 c4d5 f8d8 d5e5 f7f8q e5e4 f8f2 e4e5 f2f5";

#[test]
fn full_game_played_white_wins() {
    let zobrist_hasher = ZobristHasher::create_zobrist_hasher();
    let mut draw_table: DrawTable = DrawTable::new();
    let commands: Vec<&str> = LONG_GAME.split(' ').collect();
    let board = play_out_position(&commands, &zobrist_hasher, &mut draw_table).unwrap();
    let end_board = BoardState::from_fen("3R4/8/6KP/4kQ2/8/8/8/8 b - - 4 66").unwrap();

    for i in BOARD_START..BOARD_END {
        for j in BOARD_START..BOARD_END {
            assert_eq!(board.board[i][j], end_board.board[i][j]);
        }
    }
    assert_eq!(board.white_queen_side_castle, end_board.white_queen_side_castle);
    assert_eq!(board.white_king_side_castle, end_board.white_king_side_castle);
    assert_eq!(board.black_king_side_castle, end_board.black_king_side_castle);
    assert_eq!(board.black_queen_side_castle, end_board.black_queen_side_castle);
}

#[test]
fn zobrist_hash_full_game_played_white_wins() {
    let zobrist_hasher = ZobristHasher::create_zobrist_hasher();
    let mut draw_table: DrawTable = DrawTable::new();
    let commands: Vec<&str> = LONG_GAME.split(' ').collect();
    let board = play_out_position(&commands, &zobrist_hasher, &mut draw_table).unwrap();
    let end_board = BoardState::from_fen("3R4/8/6KP/4kQ2/8/8/8/8 b - - 4 66").unwrap();

    assert_eq!(board.zobrist_key, end_board.zobrist_key);
}

#[test]
fn zobrist_hash_full_game_played_white_wins_2() {
    let zobrist_hasher = ZobristHasher::create_zobrist_hasher();
    let mut draw_table: DrawTable = DrawTable::new();
    // this game contains en-passant, castling and pawn promotion
    let commands: Vec<&str> = "position startpos moves e2e4 d7d5 e4e5 f7f5 e5f6 b8c6 f6g7 c8e6 g7h8q d8d6 d2d3 e8c8 d1h5 c6a5 h8g8 e6d7 g8f8 a5c6 h5g4 h7h6 g4a4 c6d4 a4a7 h6h5 a7a8".split(' ').collect();
    let board = play_out_position(&commands, &zobrist_hasher, &mut draw_table).unwrap();
    let end_board = BoardState::from_fen("Q1kr1Q2/1ppbp3/3q4/3p3p/3n4/3P4/PPP2PPP/RNB1KBNR b KQ - 1 13").unwrap();

    assert_eq!(board.zobrist_key, end_board.zobrist_key);
}

#[test]
fn game_is_draw_three_fold_repetition() {
    let zobrist_hasher = ZobristHasher::create_zobrist_hasher();
    let mut draw_table: DrawTable = DrawTable::new();
    let commands: Vec<&str> = "position fen 8/8/k7/p7/P7/K7/8/8 w - - 0 1 moves a3b3 a6b6 b3c4 b6c6 c4d4 c6d6 d4c4 d6c6 c4d4 c6d6 d4c4 d6c6".split(' ').collect();
    let board = play_out_position(&commands, &zobrist_hasher, &mut draw_table).unwrap();
    assert_eq!(*draw_table.table.get(&board.zobrist_key).unwrap(), 3);
}

#[test]
fn position_without_moves_is_the_start() {
    let zobrist_hasher = ZobristHasher::create_zobrist_hasher();
    let mut draw_table: DrawTable = DrawTable::new();
    let commands: Vec<&str> = "position startpos".split(' ').collect();
    let board = play_out_position(&commands, &zobrist_hasher, &mut draw_table).unwrap();
    let start = BoardState::from_fen("rnbqkbnr/pppppppp/8/8/8/8/PPPPPPPP/RNBQKBNR w KQkq - 0 1").unwrap();
    assert_eq!(board.board, start.board);
    assert_eq!(board.zobrist_key, start.zobrist_key);
    assert_eq!(draw_table.table.len(), 1);
}

#[test]
fn castling_moves_the_rook_and_keeps_the_key() {
    let zobrist_hasher = ZobristHasher::create_zobrist_hasher();
    let mut board = BoardState::from_fen("r3k2r/8/8/8/8/8/8/R3K2R w KQkq - 0 1").unwrap();
    make_move(&mut board, "e1c1", &zobrist_hasher);
    assert_eq!(board.board[9][4], Square::from(Piece::king(White)));
    assert_eq!(board.board[9][5], Square::from(Piece::rook(White)));
    assert_eq!(board.board[9][2], Square::Empty);
    assert!(!board.white_king_side_castle && !board.white_queen_side_castle);
    assert_eq!(board.white_king_location, Point(9, 4));
    let expected = BoardState::from_fen("r3k2r/8/8/8/8/8/8/2KR3R b kq - 1 1").unwrap();
    assert_eq!(board.zobrist_key, expected.zobrist_key);
}

#[test]
fn promotion_move_message() {
    let zobrist_hasher = ZobristHasher::create_zobrist_hasher();
    let mut board = BoardState::from_fen("8/P7/8/8/8/8/8/k1K5 w - - 0 1").unwrap();
    make_move(&mut board, "a7a8n", &zobrist_hasher);
    assert_eq!(board.board[2][2], Square::from(Piece::knight(White)));
    let expected = BoardState::from_fen("N7/8/8/8/8/8/8/k1K5 b - - 0 1").unwrap();
    assert_eq!(board.zobrist_key, expected.zobrist_key);

    let mut reported = board;
    reported.last_move = Some((Point(3, 2), Point(2, 2)));
    reported.pawn_promotion = Some(Piece::knight(White));
    assert_eq!(best_move_message(&reported), "bestmove a7a8n");
    reported.pawn_promotion = None;
    assert_eq!(best_move_message(&reported), "bestmove a7a8");
}

#[test]
fn impossible_positions_are_refused() {
    let zobrist_hasher = ZobristHasher::create_zobrist_hasher();
    let mut draw_table = DrawTable::new();
    let commands: Vec<&str> = vec!["position"];
    assert!(play_out_position(&commands, &zobrist_hasher, &mut draw_table).is_err());
    let commands: Vec<&str> = "position startpos moves e3e4".split(' ').collect();
    assert!(play_out_position(&commands, &zobrist_hasher, &mut draw_table).is_err());
    let commands: Vec<&str> = "position fen 8/8/8 w - - 0 1".split(' ').collect();
    assert!(play_out_position(&commands, &zobrist_hasher, &mut draw_table).is_err());
}

#[test]
fn go_command_with_a_bad_number_is_refused() {
    let commands: Vec<&str> = "go wtime soon".split(' ').collect();
    assert!(walleye::uci::try_parse_go_command(&commands).is_none());
}

#[test]
fn protocol_lines_are_classified_by_their_first_word() {
    assert_eq!(uci_request(&["isready"]), UciRequest::Ready);
    assert_eq!(uci_request(&["ucinewgame"]), UciRequest::NewGame);
    assert_eq!(uci_request(&["position", "startpos"]), UciRequest::Position);
    assert_eq!(uci_request(&["go", "wtime", "100"]), UciRequest::Go);
    assert_eq!(
        uci_request(&["setoption", "name", "DebugLogLevel", "value", "Info"]),
        UciRequest::LogToFile
    );
    assert_eq!(
        uci_request(&["setoption", "name", "DebugLogLevel", "value", "None"]),
        UciRequest::OtherOption
    );
    assert_eq!(uci_request(&["quit"]), UciRequest::Quit);
    assert_eq!(uci_request(&["isready "]), UciRequest::Unrecognized);
    assert_eq!(uci_request(&[""]), UciRequest::Unrecognized);
}
