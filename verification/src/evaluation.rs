use crate::board::{on_board, with_square, BoardState, PieceColor, PieceKind, Point, Square, BOARD_END, BOARD_START};
use crate::move_generation::{cell, kings_on_board};
use vstd::array::spec_array_update;
use vstd::prelude::*;

verus! {

/*
    Evaluation function based on https://www.chessprogramming.org/Simplified_Evaluation_Function
*/

pub const PAWN_WEIGHTS: [[i32; 8]; 8] = [
    [0, 0, 0, 0, 0, 0, 0, 0],
    [50, 50, 50, 50, 50, 50, 50, 50],
    [10, 10, 20, 30, 30, 20, 10, 10],
    [5, 5, 10, 25, 25, 10, 5, 5],
    [0, 0, 0, 20, 20, 0, 0, 0],
    [5, -5, -10, 0, 0, -10, -5, 5],
    [5, 10, 10, -20, -20, 10, 10, 5],
    [0, 0, 0, 0, 0, 0, 0, 0],
];

pub const KNIGHT_WEIGHTS: [[i32; 8]; 8] = [
    [-50, -40, -30, -30, -30, -30, -40, -50],
    [-40, -20, 0, 0, 0, 0, -20, -40],
    [-30, 0, 10, 15, 15, 10, 0, -30],
    [-30, 5, 15, 20, 20, 15, 5, -30],
    [-30, 0, 15, 20, 20, 15, 0, -30],
    [-30, 5, 10, 15, 15, 10, 5, -30],
    [-40, -20, 0, 5, 5, 0, -20, -40],
    [-50, -40, -30, -30, -30, -30, -40, -50],
];

pub const BISHOP_WEIGHTS: [[i32; 8]; 8] = [
    [-20, -10, -10, -10, -10, -10, -10, -20],
    [-10, 0, 0, 0, 0, 0, 0, -10],
    [-10, 0, 5, 10, 10, 5, 0, -10],
    [-10, 5, 5, 10, 10, 5, 5, -10],
    [-10, 0, 10, 10, 10, 10, 0, -10],
    [-10, 10, 10, 10, 10, 10, 10, -10],
    [-10, 5, 0, 0, 0, 0, 5, -10],
    [-20, -10, -10, -10, -10, -10, -10, -20],
];

pub const ROOK_WEIGHTS: [[i32; 8]; 8] = [
    [0, 0, 0, 0, 0, 0, 0, 0],
    [5, 10, 10, 10, 10, 10, 10, 5],
    [-5, 0, 0, 0, 0, 0, 0, -5],
    [-5, 0, 0, 0, 0, 0, 0, -5],
    [-5, 0, 0, 0, 0, 0, 0, -5],
    [-5, 0, 0, 0, 0, 0, 0, -5],
    [-5, 0, 0, 0, 0, 0, 0, -5],
    [0, 0, 0, 5, 5, 0, 0, 0],
];

pub const QUEEN_WEIGHTS: [[i32; 8]; 8] = [
    [-20, -10, -10, -5, -5, -10, -10, -20],
    [-10, 0, 0, 0, 0, 0, 0, -10],
    [-10, 0, 5, 5, 5, 5, 0, -10],
    [-5, 0, 5, 5, 5, 5, 0, -5],
    [0, 0, 5, 5, 5, 5, 0, -5],
    [-10, 5, 5, 5, 5, 5, 0, -10],
    [-10, 0, 5, 0, 0, 0, 0, -10],
    [-20, -10, -10, -5, -5, -10, -10, -20],
];

pub const KING_WEIGHTS: [[i32; 8]; 8] = [
    [-30, -40, -40, -50, -50, -40, -40, -30],
    [-30, -40, -40, -50, -50, -40, -40, -30],
    [-30, -40, -40, -50, -50, -40, -40, -30],
    [-30, -40, -40, -50, -50, -40, -40, -30],
    [-20, -30, -30, -40, -40, -30, -30, -20],
    [-10, -20, -20, -20, -20, -20, -20, -10],
    [20, 20, 0, 0, 0, 0, 20, 20],
    [20, 30, 10, 0, 0, 10, 30, 20],
];

pub const KING_LATE_GAME: [[i32; 8]; 8] = [
    [-50, -40, -30, -20, -20, -30, -40, -50],
    [-30, -20, -10, 0, 0, -10, -20, -30],
    [-30, -10, 20, 30, 30, 20, -10, -30],
    [-30, -10, 30, 40, 40, 30, -10, -30],
    [-30, -10, 30, 40, 40, 30, -10, -30],
    [-30, -10, 20, 30, 30, 20, -10, -30],
    [-30, -30, 0, 0, 0, 0, -30, -30],
    [-50, -30, -30, -30, -30, -30, -30, -50],
];

// approximated at 2 kings, 2 bishops and 10 pawns
pub const END_GAME_MATERIAL_VALUE: i32 = 41660;

/// The positional bonus of a piece other than the king on (`row`, `col`), read from the
/// table of its kind, which is mirrored for black.
pub open spec fn spec_pos_evaluation(row: int, col: int, color: PieceColor, kind: PieceKind) -> int {
    let c = col - BOARD_START;
    let r = if color == PieceColor::White { row - BOARD_START } else { 9 - row };
    match kind {
        PieceKind::Pawn => PAWN_WEIGHTS[r][c] as int,
        PieceKind::Rook => ROOK_WEIGHTS[r][c] as int,
        PieceKind::Bishop => BISHOP_WEIGHTS[r][c] as int,
        PieceKind::Knight => KNIGHT_WEIGHTS[r][c] as int,
        PieceKind::Queen => QUEEN_WEIGHTS[r][c] as int,
        _ => 0,
    }
}

/// The score of one square from the side to move's point of view: value plus positional
/// bonus of the piece on it, counted for its owner and against the opponent.
pub open spec fn square_score(b: BoardState, r: int, c: int) -> int {
    match cell(b, r, c) {
        Square::Full(p) => {
            let v = spec_pos_evaluation(r, c, p.color, p.kind) + p.kind.spec_value();
            if p.color == b.to_move {
                v
            } else {
                -v
            }
        },
        _ => 0,
    }
}

/// The material value on one square.
pub open spec fn square_material(b: BoardState, r: int, c: int) -> int {
    match cell(b, r, c) {
        Square::Full(p) => p.kind.spec_value(),
        _ => 0,
    }
}

/// The sum of `f` over the first `n` squares of row `r` of the playing area.
pub open spec fn row_sum(b: BoardState, r: int, n: nat, material: bool) -> int
    decreases n,
{
    if n == 0 {
        0
    } else {
        let c = BOARD_START + n - 1;
        row_sum(b, r, (n - 1) as nat, material) + if material {
            square_material(b, r, c)
        } else {
            square_score(b, r, c)
        }
    }
}

/// The sum over the first `n` rows of the playing area.
pub open spec fn board_sum(b: BoardState, n: nat, material: bool) -> int
    decreases n,
{
    if n == 0 {
        0
    } else {
        board_sum(b, (n - 1) as nat, material) + row_sum(b, BOARD_START + n - 1, 8, material)
    }
}

/// The king's positional bonus, from the late game table once little material is left.
pub open spec fn spec_king_evaluation(loc: Point, color: PieceColor, is_end_game: bool) -> int {
    let r = if color == PieceColor::White { loc.0 - BOARD_START } else { 9 - loc.0 };
    let c = loc.1 - BOARD_START;
    if is_end_game {
        KING_LATE_GAME[r][c] as int
    } else {
        KING_WEIGHTS[r][c] as int
    }
}

/// How good a position is for the side to move: the material and positional score of every
/// piece, plus the difference of the kings' positional bonuses.
pub open spec fn spec_evaluation(b: BoardState) -> int {
    let is_end_game = board_sum(b, 8, true) <= END_GAME_MATERIAL_VALUE;
    let w = spec_king_evaluation(b.white_king_location, PieceColor::White, is_end_game);
    let k = spec_king_evaluation(b.black_king_location, PieceColor::Black, is_end_game);
    board_sum(b, 8, false) + if b.to_move == PieceColor::White {
        w - k
    } else {
        k - w
    }
}

/*
    Get the pos evaluation for every piece excluding the King
*/
fn get_pos_evaluation(row: usize, col: usize, color: PieceColor, kind: PieceKind) -> (r: i32)
    requires
        on_board(Point(row, col)),
    ensures
        r as int == spec_pos_evaluation(row as int, col as int, color, kind),
        -50 <= r <= 50,
{
    let col = col - BOARD_START;
    let row = match color {
        PieceColor::White => row - BOARD_START,
        PieceColor::Black => 9 - row,
    };
    match kind {
        PieceKind::Pawn => PAWN_WEIGHTS[row][col],
        PieceKind::Rook => ROOK_WEIGHTS[row][col],
        PieceKind::Bishop => BISHOP_WEIGHTS[row][col],
        PieceKind::Knight => KNIGHT_WEIGHTS[row][col],
        PieceKind::Queen => QUEEN_WEIGHTS[row][col],
        _ => 0,
    }
}

/*
    Get the pos evaluation for the kings
    We make this a separate function in order to avoid looping over the board more than once
*/
fn get_pos_evaluation_king_white(board: &BoardState, is_end_game: bool) -> (r: i32)
    requires
        on_board(board.white_king_location),
    ensures
        r as int == spec_king_evaluation(board.white_king_location, PieceColor::White, is_end_game),
        -50 <= r <= 50,
{
    if is_end_game {
        return KING_LATE_GAME[board.white_king_location.0 - BOARD_START][board.white_king_location.1
            - BOARD_START];
    }
    KING_WEIGHTS[board.white_king_location.0 - BOARD_START][board.white_king_location.1
        - BOARD_START]
}

fn get_pos_evaluation_king_black(board: &BoardState, is_end_game: bool) -> (r: i32)
    requires
        on_board(board.black_king_location),
    ensures
        r as int == spec_king_evaluation(board.black_king_location, PieceColor::Black, is_end_game),
        -50 <= r <= 50,
{
    if is_end_game {
        return KING_LATE_GAME[9 - board.black_king_location.0][board.black_king_location.1
            - BOARD_START];
    }
    KING_WEIGHTS[9 - board.black_king_location.0][board.black_king_location.1 - BOARD_START]
}

/// No evaluation goes beyond this in either direction: sixty-four squares of at most a
/// king's value and bonus, and the kings' bonuses.
pub const EVAL_BOUND: i32 = 1300000;

/*
    Return how good a position is from the perspective of the current player
*/
pub fn get_evaluation(board: &BoardState) -> (r: i32)
    requires
        kings_on_board(*board),
    ensures
        r as int == spec_evaluation(*board),
        -EVAL_BOUND <= r <= EVAL_BOUND,
{
    let mut evaluation: i32 = 0;
    let mut total_piece_value: i32 = 0;
    for row in BOARD_START..BOARD_END
        invariant
            kings_on_board(*board),
            evaluation as int == board_sum(*board, (row - BOARD_START) as nat, false),
            total_piece_value as int == board_sum(*board, (row - BOARD_START) as nat, true),
            -160400 * (row - BOARD_START) <= evaluation <= 160400 * (row - BOARD_START),
            0 <= total_piece_value <= 160000 * (row - BOARD_START),
    {
        let ghost row_start_eval = evaluation as int;
        let ghost row_start_total = total_piece_value as int;
        for col in BOARD_START..BOARD_END
            invariant
                BOARD_START <= row < BOARD_END,
                evaluation as int == row_start_eval + row_sum(*board, row as int, (col - BOARD_START) as nat, false),
                total_piece_value as int == row_start_total + row_sum(*board, row as int, (col - BOARD_START) as nat, true),
                row_start_eval == board_sum(*board, (row - BOARD_START) as nat, false),
                row_start_total == board_sum(*board, (row - BOARD_START) as nat, true),
                -160400 * (row - BOARD_START) <= row_start_eval <= 160400 * (row - BOARD_START),
                0 <= row_start_total <= 160000 * (row - BOARD_START),
                -20050 * (col - BOARD_START) <= evaluation - row_start_eval <= 20050 * (col - BOARD_START),
                0 <= total_piece_value - row_start_total <= 20000 * (col - BOARD_START),
        {
            assert(row - BOARD_START <= 7 && col - BOARD_START <= 7);
            assert(160400 * (row - BOARD_START) <= 160400 * 7) by (nonlinear_arith)
                requires row - BOARD_START <= 7;
            assert(160000 * (row - BOARD_START) <= 160000 * 7) by (nonlinear_arith)
                requires row - BOARD_START <= 7;
            let square = board.board[row][col];
            if let Square::Full(piece) = square {
                let color = piece.color;
                let kind = piece.kind;
                total_piece_value = total_piece_value + kind.value();
                if color == board.to_move {
                    evaluation = evaluation + (get_pos_evaluation(row, col, color, kind) + kind.value());
                } else {
                    evaluation = evaluation - (get_pos_evaluation(row, col, color, kind) + kind.value());
                }
            }
        }
    }
    // an approximation of when the end game has started
    let is_end_game = total_piece_value <= END_GAME_MATERIAL_VALUE;
    let white_king_eval = get_pos_evaluation_king_white(&board, is_end_game);
    let black_king_eval = get_pos_evaluation_king_black(&board, is_end_game);
    evaluation = evaluation + match board.to_move {
        PieceColor::White => white_king_eval - black_king_eval,
        PieceColor::Black => black_king_eval - white_king_eval,
    };
    evaluation
}

/// The position with the other side to move.
pub open spec fn other_side_to_move(b: BoardState) -> BoardState {
    BoardState { to_move: b.to_move.spec_opposite(), ..b }
}

proof fn lemma_row_sum_flip(b: BoardState, r: int, n: nat)
    ensures
        row_sum(other_side_to_move(b), r, n, false) == -row_sum(b, r, n, false),
        row_sum(other_side_to_move(b), r, n, true) == row_sum(b, r, n, true),
    decreases n,
{
    if n > 0 {
        lemma_row_sum_flip(b, r, (n - 1) as nat);
    }
}

proof fn lemma_board_sum_flip(b: BoardState, n: nat)
    ensures
        board_sum(other_side_to_move(b), n, false) == -board_sum(b, n, false),
        board_sum(other_side_to_move(b), n, true) == board_sum(b, n, true),
    decreases n,
{
    if n > 0 {
        lemma_board_sum_flip(b, (n - 1) as nat);
        lemma_row_sum_flip(b, BOARD_START + n - 1, 8);
    }
}

/// The evaluation is from the side to move's point of view: handing the move to the other
/// side negates it.
pub proof fn lemma_evaluation_flips(b: BoardState)
    ensures
        spec_evaluation(other_side_to_move(b)) == -spec_evaluation(b),
{
    lemma_board_sum_flip(b, 8);
}

/// Material counts at the fixed value of each kind of piece: pawn 100, knight 320, bishop
/// 330, rook 500, queen 900, king 20000; a square counts its piece's value plus positional
/// bonus, for the side to move when the piece is its own and against it otherwise.
pub proof fn lemma_material_values(b: BoardState, r: int, c: int)
    ensures
        cell(b, r, c) matches Square::Full(p) ==> square_material(b, r, c) == (match p.kind {
            PieceKind::Pawn => 100int,
            PieceKind::Knight => 320int,
            PieceKind::Bishop => 330int,
            PieceKind::Rook => 500int,
            PieceKind::Queen => 900int,
            PieceKind::King => 20000int,
        }),
        cell(b, r, c) matches Square::Full(p) ==> square_score(b, r, c) == if p.color == b.to_move {
            square_material(b, r, c) + spec_pos_evaluation(r, c, p.color, p.kind)
        } else {
            -(square_material(b, r, c) + spec_pos_evaluation(r, c, p.color, p.kind))
        },
        !(cell(b, r, c) is Full) ==> square_material(b, r, c) == 0 && square_score(b, r, c) == 0,
{
}

/// The position with the square (`r`, `c`) emptied.
pub open spec fn without_piece(b: BoardState, r: int, c: int) -> BoardState {
    BoardState { board: with_square(b.board, r, c, Square::Empty), ..b }
}

proof fn lemma_row_sum_without(b: BoardState, r: int, c: int, row: int, n: nat, material: bool)
    requires
        0 <= r < 12,
        0 <= c < 12,
        0 <= row < 12,
        n <= 8,
    ensures
        row_sum(without_piece(b, r, c), row, n, material) == row_sum(b, row, n, material) - if row == r
            && BOARD_START <= c < BOARD_START + n {
            if material {
                square_material(b, r, c)
            } else {
                square_score(b, r, c)
            }
        } else {
            0
        },
    decreases n,
{
    let e = without_piece(b, r, c);
    assert(e.board@ == b.board@.update(r, spec_array_update(b.board[r], c, Square::Empty)));
    assert(e.board[r]@ == b.board[r]@.update(c, Square::Empty));
    if n > 0 {
        lemma_row_sum_without(b, r, c, row, (n - 1) as nat, material);
        let cc = BOARD_START + n - 1;
        if row == r && cc == c {
            assert(cell(e, row, cc) == Square::Empty);
        } else {
            assert(cell(e, row, cc) == cell(b, row, cc));
        }
    }
}

proof fn lemma_board_sum_without(b: BoardState, r: int, c: int, n: nat, material: bool)
    requires
        BOARD_START <= r < BOARD_END,
        BOARD_START <= c < BOARD_END,
        n <= 8,
    ensures
        board_sum(without_piece(b, r, c), n, material) == board_sum(b, n, material) - if BOARD_START <= r
            < BOARD_START + n {
            if material {
                square_material(b, r, c)
            } else {
                square_score(b, r, c)
            }
        } else {
            0
        },
    decreases n,
{
    if n > 0 {
        lemma_board_sum_without(b, r, c, (n - 1) as nat, material);
        lemma_row_sum_without(b, r, c, BOARD_START + n - 1, 8, material);
    }
}

/// Taking a piece off the board lowers the material counted by its value, and changes the
/// evaluation by exactly what its square counted (its value plus positional bonus, for or
/// against the side to move), as long as the material stays on the same side of the late
/// game threshold.
pub proof fn lemma_removing_a_piece(b: BoardState, r: int, c: int)
    requires
        BOARD_START <= r < BOARD_END,
        BOARD_START <= c < BOARD_END,
    ensures
        board_sum(without_piece(b, r, c), 8, true) == board_sum(b, 8, true) - square_material(b, r, c),
        (board_sum(without_piece(b, r, c), 8, true) <= END_GAME_MATERIAL_VALUE) == (board_sum(b, 8, true)
            <= END_GAME_MATERIAL_VALUE) ==> spec_evaluation(without_piece(b, r, c)) == spec_evaluation(b)
            - square_score(b, r, c),
{
    lemma_board_sum_without(b, r, c, 8, true);
    lemma_board_sum_without(b, r, c, 8, false);
}

} // verus!


