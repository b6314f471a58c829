use vstd::prelude::*;

verus! {

// A compact board: one byte per square, the top bit for the color and the low three bits for
// the kind of piece.
pub const COLOR_MASK: u8 = 0b10000000;

pub const WHITE: u8 = 0b10000000;

pub const BLACK: u8 = 0b00000000;

pub const PIECE_MASK: u8 = 0b00000111;

pub const PAWN: u8 = 0b00000001;

pub const KNIGHT: u8 = 0b00000010;

pub const BISHOP: u8 = 0b00000011;

pub const ROOK: u8 = 0b00000100;

pub const QUEEN: u8 = 0b00000110;

pub const KING: u8 = 0b00000111;

pub const EMPTY: u8 = 0;

pub const SENTINEL: u8 = 0b11111111;

pub fn is_white(square: u8) -> (r: bool)
    ensures
        r == (square & COLOR_MASK == WHITE),
{
    square & COLOR_MASK == WHITE
}

pub fn is_black(square: u8) -> (r: bool)
    ensures
        r == (square & COLOR_MASK != WHITE),
{
    !is_white(square)
}

pub fn is_pawn(square: u8) -> (r: bool)
    ensures
        r == (square & PIECE_MASK == PAWN),
{
    square & PIECE_MASK == PAWN
}

pub fn is_knight(square: u8) -> (r: bool)
    ensures
        r == (square & PIECE_MASK == KNIGHT),
{
    square & PIECE_MASK == KNIGHT
}

pub fn is_bishop(square: u8) -> (r: bool)
    ensures
        r == (square & PIECE_MASK == BISHOP),
{
    square & PIECE_MASK == BISHOP
}

pub fn is_rook(square: u8) -> (r: bool)
    ensures
        r == (square & PIECE_MASK == ROOK),
{
    square & PIECE_MASK == ROOK
}

pub fn is_queen(square: u8) -> (r: bool)
    ensures
        r == (square & PIECE_MASK == QUEEN),
{
    square & PIECE_MASK == QUEEN
}

pub fn is_king(square: u8) -> (r: bool)
    ensures
        r == (square & PIECE_MASK == KING),
{
    square & PIECE_MASK == KING
}

pub fn is_empty(square: u8) -> (r: bool)
    ensures
        r == (square == EMPTY),
{
    square == EMPTY
}

pub fn is_outside_board(square: u8) -> (r: bool)
    ensures
        r == (square == SENTINEL),
{
    square == SENTINEL
}

/// A piece code read back gives its color and its kind: for every kind, the white code is
/// white and the black code black, and both are of that kind and of no other.
pub proof fn lemma_piece_codes(kind: u8)
    requires
        kind == PAWN || kind == KNIGHT || kind == BISHOP || kind == ROOK || kind == QUEEN || kind == KING,
    ensures
        (WHITE | kind) & COLOR_MASK == WHITE,
        (BLACK | kind) & COLOR_MASK != WHITE,
        (WHITE | kind) & PIECE_MASK == kind,
        (BLACK | kind) & PIECE_MASK == kind,
        (WHITE | kind) != EMPTY && (WHITE | kind) != SENTINEL,
        (BLACK | kind) != EMPTY && (BLACK | kind) != SENTINEL,
{
    assert(kind == 1u8 || kind == 2u8 || kind == 3u8 || kind == 4u8 || kind == 6u8 || kind == 7u8 ==> {
        &&& (128u8 | kind) & 128u8 == 128u8
        &&& (0u8 | kind) & 128u8 != 128u8
        &&& (128u8 | kind) & 7u8 == kind
        &&& (0u8 | kind) & 7u8 == kind
        &&& (128u8 | kind) != 0u8 && (128u8 | kind) != 255u8
        &&& (0u8 | kind) != 0u8 && (0u8 | kind) != 255u8
    }) by (bit_vector);
}

/// The piece kind that starts on column `j` of a back rank.
pub open spec fn back_rank_kind(j: int) -> u8 {
    if j == 2 || j == 9 {
        ROOK
    } else if j == 3 || j == 8 {
        KNIGHT
    } else if j == 4 || j == 7 {
        BISHOP
    } else if j == 5 {
        KING
    } else {
        QUEEN
    }
}

/// The code that starts on row `i`, column `j` of the compact board: white's pieces on rows
/// 2 and 3, black's on rows 8 and 9, empty squares between, sentinels around.
pub open spec fn start_code(i: int, j: int) -> u8 {
    if !(2 <= j < 10) {
        SENTINEL
    } else if i == 2 {
        WHITE | back_rank_kind(j)
    } else if i == 3 {
        WHITE | PAWN
    } else if 4 <= i < 8 {
        EMPTY
    } else if i == 8 {
        BLACK | PAWN
    } else if i == 9 {
        BLACK | back_rank_kind(j)
    } else {
        SENTINEL
    }
}

pub struct Board {
    board: [[u8; 10]; 12],
    to_move: u8,
}

impl Board {
    /// The code on row `i`, column `j`.
    pub closed spec fn code(&self, i: int, j: int) -> u8 {
        self.board[i][j]
    }

    /// The color to move.
    pub closed spec fn side(&self) -> u8 {
        self.to_move
    }

    /// The code on row `i`, column `j` (rows below 12, columns below 10).
    pub fn square(&self, i: usize, j: usize) -> (r: u8)
        requires
            i < 12,
            j < 10,
        ensures
            r == self.code(i as int, j as int),
    {
        self.board[i][j]
    }
}

pub fn new_board() -> (r: Board)
    ensures
        forall|i: int, j: int| 0 <= i < 12 && 0 <= j < 10 ==> #[trigger] r.code(i, j) == start_code(i, j),
        r.side() == WHITE,
{
    let mut b = [[SENTINEL; 10]; 12];
    // White pieces
    b[2][2] = WHITE | ROOK;
    b[2][3] = WHITE | KNIGHT;
    b[2][4] = WHITE | BISHOP;
    b[2][5] = WHITE | KING;
    b[2][6] = WHITE | QUEEN;
    b[2][7] = WHITE | BISHOP;
    b[2][8] = WHITE | KNIGHT;
    b[2][9] = WHITE | ROOK;
    for i in 2..10
        invariant
            forall|r: int, c: int| 0 <= r < 12 && 0 <= c < 10 ==> #[trigger] b[r][c] == if r == 3 && 2 <= c < i {
                WHITE | PAWN
            } else if r == 2 && 2 <= c < 10 {
                WHITE | back_rank_kind(c)
            } else {
                SENTINEL
            },
    {
        b[3][i] = WHITE | PAWN;
    }
    // No mans land
    for i in 4..8
        invariant
            forall|r: int, c: int| 0 <= r < 12 && 0 <= c < 10 ==> #[trigger] b[r][c] == if r < 4 {
                start_code(r, c)
            } else if 4 <= r < i && 2 <= c < 10 {
                EMPTY
            } else {
                SENTINEL
            },
    {
        for j in 2..10
            invariant
                4 <= i < 8,
                forall|r: int, c: int| 0 <= r < 12 && 0 <= c < 10 ==> #[trigger] b[r][c] == if r < 4 {
                    start_code(r, c)
                } else if (4 <= r < i && 2 <= c < 10) || (r == i && 2 <= c < j) {
                    EMPTY
                } else {
                    SENTINEL
                },
        {
            b[i][j] = EMPTY;
        }
    }
    // Black pieces
    b[9][2] = BLACK | ROOK;
    b[9][3] = BLACK | KNIGHT;
    b[9][4] = BLACK | BISHOP;
    b[9][5] = BLACK | KING;
    b[9][6] = BLACK | QUEEN;
    b[9][7] = BLACK | BISHOP;
    b[9][8] = BLACK | KNIGHT;
    b[9][9] = BLACK | ROOK;
    for i in 2..10
        invariant
            forall|r: int, c: int| 0 <= r < 12 && 0 <= c < 10 ==> #[trigger] b[r][c] == if r == 8 {
                if 2 <= c < i { BLACK | PAWN } else { SENTINEL }
            } else {
                start_code(r, c)
            },
    {
        b[8][i] = BLACK | PAWN;
    }
    Board { board: b, to_move: WHITE }
}

} // verus!
