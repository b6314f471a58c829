use walleye::board::BoardState;
use walleye::evaluation::get_evaluation;

#[test]
fn position_evaluation() {
    let b = BoardState::from_fen("rnbqkbnr/pppppppp/8/8/8/8/PPPPPPPP/RNBQKBNR w KQkq - 0 1").unwrap();
    assert_eq!(get_evaluation(&b), 0);
}

#[test]
fn position_evaluation2() {
    let b = BoardState::from_fen("rnbqkbnr/1ppppppp/8/8/8/8/PPPPPPPP/RNBQKBNR w KQkq - 0 1").unwrap();
    assert_eq!(get_evaluation(&b), 105);
}

#[test]
fn evaluation_is_from_the_side_to_move() {
    let w = BoardState::from_fen("rnbqkbnr/1ppppppp/8/8/8/8/PPPPPPPP/RNBQKBNR w KQkq - 0 1").unwrap();
    let b = BoardState::from_fen("rnbqkbnr/1ppppppp/8/8/8/8/PPPPPPPP/RNBQKBNR b KQkq - 0 1").unwrap();
    assert_eq!(get_evaluation(&w), -get_evaluation(&b));
}
