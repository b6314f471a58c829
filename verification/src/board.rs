use crate::zobrist::{ZobristHasher, BOARD_SIZE};
use vstd::array::spec_array_update;
use vstd::prelude::*;

verus! {

/// The content of one cell of the padded board.
#[derive(Copy, Clone, PartialEq, Eq, Debug, Structural)]
pub enum Square {
    // This square is empty.
    Empty,
    // A piece is on this square
    Full(Piece),
    // A non-board square; the board data structure contains squares not present on the
    // actual board in order to make move calculation easier, and all such squares have
    // this variant.
    Boundary,
}

#[derive(Copy, Clone, PartialEq, Eq, Debug, Structural)]
pub struct Piece {
    pub color: PieceColor,
    pub kind: PieceKind,
}

#[derive(Copy, Clone, PartialEq, Eq, Debug, Structural)]
pub enum PieceColor {
    Black,
    White,
}

#[derive(Copy, Clone, PartialEq, Eq, Debug, Structural)]
pub enum PieceKind {
    Pawn,
    Knight,
    Bishop,
    Rook,
    Queen,
    King,
}

/// The four castling rights.
#[derive(Copy, Clone, PartialEq, Eq, Debug, Structural)]
pub enum CastlingType {
    WhiteKingSide,
    WhiteQueenSide,
    BlackKingSide,
    BlackQueenSide,
}

/// A (row, column) position on the padded 12x12 board; the playing area is rows and
/// columns `BOARD_START..BOARD_END`, row `BOARD_START` being rank 8 and column
/// `BOARD_START` being file a.
#[derive(Copy, Clone, PartialEq, Eq, Debug, Structural)]
pub struct Point(pub usize, pub usize);

pub const BOARD_START: usize = 2;
pub const BOARD_END: usize = 10;

impl From<Piece> for Square {
    // Given a piece, generate a square containing that piece
    fn from(piece: Piece) -> (r: Self) {
        Square::Full(piece)
    }
}

impl vstd::std_specs::convert::FromSpecImpl<Piece> for Square {
    open spec fn obeys_from_spec() -> bool {
        true
    }

    open spec fn from_spec(piece: Piece) -> Square {
        Square::Full(piece)
    }
}

impl Square {
    // Check if this square is empty or contains a piece of the given color (used in move
    // generation)
    pub fn is_empty_or_color(self, color: PieceColor) -> (r: bool)
        ensures
            r == (self == Square::Empty || (self is Full && self->0.color == color)),
    {
        match self {
            Square::Full(Piece { color: square_color, .. }) => color == square_color,
            Square::Empty => true,
            _ => false,
        }
    }

    // Check if this square is empty
    pub fn is_empty(self) -> (r: bool)
        ensures
            r == (self == Square::Empty),
    {
        match self {
            Square::Empty => true,
            _ => false,
        }
    }

    // Check if a square is a certain color, return false if empty
    pub fn is_color(self, color: PieceColor) -> (r: bool)
        ensures
            r == (self is Full && self->0.color == color),
    {
        match self {
            Square::Full(Piece { color: square_color, .. }) => color == square_color,
            _ => false,
        }
    }

    /// Whether this square holds exactly `piece`.
    pub fn holds(self, piece: Piece) -> (r: bool)
        ensures
            r == (self == Square::Full(piece)),
    {
        match self {
            Square::Full(p) => p.color == piece.color && p.kind == piece.kind,
            _ => false,
        }
    }

    // Get the "fancy" character to represent the content of this square
    pub fn fancy_char(self) -> (r: &'static str)
        ensures
            r@ == fancy_text(self),
    {
        match self {
            Square::Full(piece) => piece.fancy_char(),
            _ => " ",
        }
    }

    // Get the "simple" character to represent this content of this square (capitalized based on
    // the piece's color)
    fn simple_char(self) -> (r: char)
        ensures
            r == spec_simple_char(self),
    {
        match self {
            Square::Full(piece) => piece.simple_char(),
            _ => '.',
        }
    }
}

/// The glyph a square is drawn with in the colored board picture (a blank when it is empty).
pub open spec fn fancy_text(s: Square) -> Seq<char> {
    match s {
        Square::Full(p) => match p.kind {
            PieceKind::Pawn => "♟︎"@,
            PieceKind::Knight => "♞"@,
            PieceKind::Bishop => "♝"@,
            PieceKind::Rook => "♜"@,
            PieceKind::Queen => "♛"@,
            PieceKind::King => "♚"@,
        },
        _ => " "@,
    }
}

/// The character a square is drawn with in the plain board picture.
pub open spec fn spec_simple_char(s: Square) -> char {
    match s {
        Square::Full(p) => piece_char(p),
        _ => '.',
    }
}

/// The FEN letter of a piece: upper case for white, lower case for black.
pub open spec fn piece_char(p: Piece) -> char {
    let c = match p.kind {
        PieceKind::Pawn => 'p',
        PieceKind::Knight => 'n',
        PieceKind::Bishop => 'b',
        PieceKind::Rook => 'r',
        PieceKind::Queen => 'q',
        PieceKind::King => 'k',
    };
    if p.color == PieceColor::White {
        upper(c)
    } else {
        c
    }
}

/// The upper case form of one of the six lower case piece letters.
pub open spec fn upper(c: char) -> char {
    if c == 'p' {
        'P'
    } else if c == 'n' {
        'N'
    } else if c == 'b' {
        'B'
    } else if c == 'r' {
        'R'
    } else if c == 'q' {
        'Q'
    } else {
        'K'
    }
}

impl Piece {
    pub fn index(self) -> (r: usize)
        ensures
            r as int == self.kind.spec_index(),
    {
        self.kind.index()
    }

    pub fn pawn(color: PieceColor) -> (r: Self)
        ensures
            r == (Piece { kind: PieceKind::Pawn, color }),
    {
        Self { kind: PieceKind::Pawn, color }
    }

    pub fn knight(color: PieceColor) -> (r: Self)
        ensures
            r == (Piece { kind: PieceKind::Knight, color }),
    {
        Self { kind: PieceKind::Knight, color }
    }

    pub fn bishop(color: PieceColor) -> (r: Self)
        ensures
            r == (Piece { kind: PieceKind::Bishop, color }),
    {
        Self { kind: PieceKind::Bishop, color }
    }

    pub fn rook(color: PieceColor) -> (r: Self)
        ensures
            r == (Piece { kind: PieceKind::Rook, color }),
    {
        Self { kind: PieceKind::Rook, color }
    }

    pub fn queen(color: PieceColor) -> (r: Self)
        ensures
            r == (Piece { kind: PieceKind::Queen, color }),
    {
        Self { kind: PieceKind::Queen, color }
    }

    pub fn king(color: PieceColor) -> (r: Self)
        ensures
            r == (Piece { kind: PieceKind::King, color }),
    {
        Self { kind: PieceKind::King, color }
    }

    // Get the "fancy" character for this piece
    pub fn fancy_char(self) -> (r: &'static str)
        ensures
            r@ == fancy_text(Square::Full(self)),
    {
        match self.kind {
            PieceKind::Pawn => "♟︎",
            PieceKind::Knight => "♞",
            PieceKind::Bishop => "♝",
            PieceKind::Rook => "♜",
            PieceKind::Queen => "♛",
            PieceKind::King => "♚",
        }
    }

    // Get the "simple" character to represent this piece (capitalized based on the piece's color)
    fn simple_char(self) -> (r: char)
        ensures
            r == piece_char(self),
    {
        match (self.color, self.kind) {
            (PieceColor::White, PieceKind::Pawn) => 'P',
            (PieceColor::White, PieceKind::Knight) => 'N',
            (PieceColor::White, PieceKind::Bishop) => 'B',
            (PieceColor::White, PieceKind::Rook) => 'R',
            (PieceColor::White, PieceKind::Queen) => 'Q',
            (PieceColor::White, PieceKind::King) => 'K',
            (PieceColor::Black, PieceKind::Pawn) => 'p',
            (PieceColor::Black, PieceKind::Knight) => 'n',
            (PieceColor::Black, PieceKind::Bishop) => 'b',
            (PieceColor::Black, PieceKind::Rook) => 'r',
            (PieceColor::Black, PieceKind::Queen) => 'q',
            (PieceColor::Black, PieceKind::King) => 'k',
        }
    }
}

impl PieceColor {
    pub open spec fn spec_opposite(self) -> PieceColor {
        match self {
            PieceColor::Black => PieceColor::White,
            PieceColor::White => PieceColor::Black,
        }
    }

    // Get the opposite color
    pub fn opposite(self) -> (r: Self)
        ensures
            r == self.spec_opposite(),
    {
        match self {
            PieceColor::Black => PieceColor::White,
            PieceColor::White => PieceColor::Black,
        }
    }
}

impl PieceKind {
    pub open spec fn spec_index(self) -> int {
        match self {
            PieceKind::King => 0,
            PieceKind::Queen => 1,
            PieceKind::Rook => 2,
            PieceKind::Bishop => 3,
            PieceKind::Knight => 4,
            PieceKind::Pawn => 5,
        }
    }

    // get an index for a piece, helpful for arrays
    pub fn index(self) -> (r: usize)
        ensures
            r as int == self.spec_index(),
    {
        match self {
            PieceKind::King => 0,
            PieceKind::Queen => 1,
            PieceKind::Rook => 2,
            PieceKind::Bishop => 3,
            PieceKind::Knight => 4,
            PieceKind::Pawn => 5,
        }
    }

    /// The material value of this kind of piece.
    pub open spec fn spec_value(self) -> int {
        match self {
            PieceKind::Pawn => 100,
            PieceKind::Knight => 320,
            PieceKind::Bishop => 330,
            PieceKind::Rook => 500,
            PieceKind::Queen => 900,
            PieceKind::King => 20000,
        }
    }

    // Get the material value of this kind of piece
    pub fn value(self) -> (r: i32)
        ensures
            r as int == self.spec_value(),
            100 <= r <= 20000,
    {
        match self {
            PieceKind::Pawn => 100,
            PieceKind::Knight => 320,
            PieceKind::Bishop => 330,
            PieceKind::Rook => 500,
            PieceKind::Queen => 900,
            PieceKind::King => 20000,
        }
    }

    /// The lower case letter of this kind of piece.
    pub open spec fn spec_alg(self) -> char {
        piece_char(Piece { color: PieceColor::Black, kind: self })
    }

    // Get the alg name for this kind of piece
    pub fn alg(self) -> (r: &'static str)
        ensures
            r@ == seq![self.spec_alg()],
    {
        proof {
            reveal_strlit("p");
            reveal_strlit("n");
            reveal_strlit("b");
            reveal_strlit("r");
            reveal_strlit("q");
            reveal_strlit("k");
        }
        match self {
            PieceKind::Pawn => "p",
            PieceKind::Knight => "n",
            PieceKind::Bishop => "b",
            PieceKind::Rook => "r",
            PieceKind::Queen => "q",
            PieceKind::King => "k",
        }
    }
}

/// A full game position on the padded 12x12 board.
#[derive(Copy, Clone)]
pub struct BoardState {
    pub board: [[Square; 12]; 12],
    pub to_move: PieceColor,
    pub pawn_double_move: Option<Point>, // if a pawn, on the last move, made a double move, this is set, otherwise this is None
    pub white_king_location: Point,
    pub black_king_location: Point,
    pub white_king_side_castle: bool,
    pub white_queen_side_castle: bool,
    pub black_king_side_castle: bool,
    pub black_queen_side_castle: bool,
    pub order_heuristic: i32, // value set to help order this board, a higher value means this board state will be considered first
    pub last_move: Option<(Point, Point)>, // the start and last position of the last move made
    pub pawn_promotion: Option<Piece>, // set to the chosen pawn promotion type
    pub zobrist_key: u64,
}

/// The padded board with the cell at (`row`, `col`) replaced by `s`.
pub open spec fn with_square(b: [[Square; 12]; 12], row: int, col: int, s: Square) -> [[Square; 12]; 12] {
    spec_array_update(b, row, spec_array_update(b[row], col, s))
}

/// Whether a point lies inside the padded 12x12 array.
pub open spec fn in_array(p: Point) -> bool {
    p.0 < 12 && p.1 < 12
}

/// Whether a point lies on the 8x8 playing area.
pub open spec fn on_board(p: Point) -> bool {
    BOARD_START <= p.0 < BOARD_END && BOARD_START <= p.1 < BOARD_END
}

// ---------------------------------------------------------------------------------------
// The Zobrist key of a position, computed from scratch.

/// The key contributed by the content `s` of cell (`row`, `col`).
pub open spec fn square_key(h: ZobristHasher, s: Square, row: int, col: int) -> u64 {
    match s {
        Square::Full(p) => h.piece_key(p, row, col),
        _ => 0,
    }
}

/// The exclusive or of the keys of the first `n` cells of one row.
pub open spec fn row_key(h: ZobristHasher, cells: Seq<Square>, row: int, n: nat) -> u64
    decreases n,
{
    if n == 0 {
        0
    } else {
        row_key(h, cells, row, (n - 1) as nat) ^ square_key(h, cells[n - 1], row, n - 1)
    }
}

/// The exclusive or of the keys of all cells in the first `n` rows.
pub open spec fn rows_key(h: ZobristHasher, b: [[Square; 12]; 12], n: nat) -> u64
    decreases n,
{
    if n == 0 {
        0
    } else {
        rows_key(h, b, (n - 1) as nat) ^ row_key(h, b[n - 1]@, n - 1, 12)
    }
}

/// The exclusive or of the keys of every piece on the board.
pub open spec fn board_key(h: ZobristHasher, b: [[Square; 12]; 12]) -> u64 {
    rows_key(h, b, 12)
}

pub open spec fn side_key(h: ZobristHasher, c: PieceColor) -> u64 {
    if c == PieceColor::Black {
        h.black_key()
    } else {
        0
    }
}

pub open spec fn right_key(h: ZobristHasher, t: CastlingType, has_right: bool) -> u64 {
    if has_right {
        h.castle_key(t)
    } else {
        0
    }
}

pub open spec fn castling_key(h: ZobristHasher, s: BoardState) -> u64 {
    ((right_key(h, CastlingType::WhiteKingSide, s.white_king_side_castle) ^ right_key(
        h,
        CastlingType::WhiteQueenSide,
        s.white_queen_side_castle,
    )) ^ right_key(h, CastlingType::BlackKingSide, s.black_king_side_castle)) ^ right_key(
        h,
        CastlingType::BlackQueenSide,
        s.black_queen_side_castle,
    )
}

pub open spec fn en_passant_part(h: ZobristHasher, ep: Option<Point>) -> u64 {
    match ep {
        Some(p) => h.en_passant_key(p.1 as int),
        None => 0,
    }
}

/// The Zobrist key of a position: the exclusive or of the keys of its pieces, of black to
/// move, of each castling right held and of the column of an en passant target.
pub open spec fn position_key(h: ZobristHasher, s: BoardState) -> u64 {
    ((board_key(h, s.board) ^ side_key(h, s.to_move)) ^ castling_key(h, s)) ^ en_passant_part(
        h,
        s.pawn_double_move,
    )
}

/// Whether the key stored in a position is the key computed from scratch.
pub open spec fn key_is_current(h: ZobristHasher, s: BoardState) -> bool {
    s.zobrist_key == position_key(h, s)
}

pub proof fn lemma_xor_zero(a: u64)
    ensures
        a ^ 0 == a,
{
    assert(a ^ 0 == a) by (bit_vector);
}

proof fn lemma_xor_replace(a: u64, o: u64, x: u64)
    ensures
        a ^ x == ((a ^ o) ^ o) ^ x,
{
    assert(a ^ x == ((a ^ o) ^ o) ^ x) by (bit_vector);
}

proof fn lemma_xor_reorder(a: u64, o: u64, x: u64, y: u64)
    ensures
        ((a ^ o) ^ x) ^ y == ((a ^ y) ^ o) ^ x,
{
    assert(((a ^ o) ^ x) ^ y == ((a ^ y) ^ o) ^ x) by (bit_vector);
}

/// Changing one cell of a row changes the row's key by the old and the new cell's keys.
proof fn lemma_row_key_update(
    h: ZobristHasher,
    cells: Seq<Square>,
    new_cells: Seq<Square>,
    row: int,
    n: nat,
    col: int,
    x: Square,
)
    requires
        0 <= col < cells.len(),
        n <= cells.len(),
        new_cells == cells.update(col, x),
    ensures
        row_key(h, new_cells, row, n) == if col < n {
            (row_key(h, cells, row, n) ^ square_key(h, cells[col], row, col)) ^ square_key(
                h,
                x,
                row,
                col,
            )
        } else {
            row_key(h, cells, row, n)
        },
    decreases n,
{
    if n > 0 {
        lemma_row_key_update(h, cells, new_cells, row, (n - 1) as nat, col, x);
        let a = row_key(h, cells, row, (n - 1) as nat);
        let o = square_key(h, cells[col], row, col);
        let y = square_key(h, x, row, col);
        if col == n - 1 {
            lemma_xor_replace(a, o, y);
        } else if col < n - 1 {
            lemma_xor_reorder(a, o, y, square_key(h, cells[n - 1], row, n - 1));
        }
    }
}

/// Changing one cell of the board changes the board's key by the old and the new cell's keys.
proof fn lemma_rows_key_update(
    h: ZobristHasher,
    b: [[Square; 12]; 12],
    nb: [[Square; 12]; 12],
    n: nat,
    row: int,
    col: int,
    x: Square,
)
    requires
        0 <= row < 12,
        0 <= col < 12,
        n <= 12,
        forall|i: int| 0 <= i < 12 && i != row ==> nb[i] == b[i],
        nb[row]@ == b[row]@.update(col, x),
    ensures
        rows_key(h, nb, n) == if row < n {
            (rows_key(h, b, n) ^ square_key(h, b[row][col], row, col)) ^ square_key(h, x, row, col)
        } else {
            rows_key(h, b, n)
        },
    decreases n,
{
    if n > 0 {
        lemma_rows_key_update(h, b, nb, (n - 1) as nat, row, col, x);
        let a = rows_key(h, b, (n - 1) as nat);
        let o = square_key(h, b[row][col], row, col);
        let y = square_key(h, x, row, col);
        if row == n - 1 {
            lemma_row_key_update(h, b[row]@, nb[row]@, row, 12, col, x);
            let r = row_key(h, b[row]@, row, 12);
            assert(((a ^ r) ^ o) ^ y == a ^ ((r ^ o) ^ y)) by (bit_vector);
        } else if row < n - 1 {
            lemma_xor_reorder(a, o, y, row_key(h, b[n - 1]@, n - 1, 12));
        }
    }
}

/// A row without pieces contributes nothing to the key.
proof fn lemma_row_key_no_pieces(h: ZobristHasher, cells: Seq<Square>, row: int, n: nat)
    requires
        n <= cells.len(),
        forall|j: int| 0 <= j < n ==> !(#[trigger] cells[j] is Full),
    ensures
        row_key(h, cells, row, n) == 0,
    decreases n,
{
    if n > 0 {
        lemma_row_key_no_pieces(h, cells, row, (n - 1) as nat);
        assert(!(cells[n - 1] is Full));
        lemma_xor_zero(0);
    }
}

proof fn lemma_rows_key_no_pieces(h: ZobristHasher, b: [[Square; 12]; 12], n: nat)
    requires
        n <= 12,
        forall|i: int, j: int| 0 <= i < 12 && 0 <= j < 12 ==> !(#[trigger] b[i][j] is Full),
    ensures
        rows_key(h, b, n) == 0,
    decreases n,
{
    if n > 0 {
        lemma_rows_key_no_pieces(h, b, (n - 1) as nat);
        assert forall|j: int| 0 <= j < 12 implies !(#[trigger] b[n - 1]@[j] is Full) by {
            assert(!(b[n - 1][j] is Full));
        }
        lemma_row_key_no_pieces(h, b[n - 1]@, n - 1, 12);
        lemma_xor_zero(0);
    }
}

/// A board without pieces has key zero.
pub proof fn lemma_board_key_no_pieces(h: ZobristHasher, b: [[Square; 12]; 12])
    requires
        forall|i: int, j: int| 0 <= i < 12 && 0 <= j < 12 ==> !(#[trigger] b[i][j] is Full),
    ensures
        board_key(h, b) == 0,
{
    lemma_rows_key_no_pieces(h, b, 12);
}

/// The board key after one cell is changed.
pub proof fn lemma_board_key_update(
    h: ZobristHasher,
    b: [[Square; 12]; 12],
    nb: [[Square; 12]; 12],
    row: int,
    col: int,
    x: Square,
)
    requires
        0 <= row < 12,
        0 <= col < 12,
        forall|i: int| 0 <= i < 12 && i != row ==> nb[i] == b[i],
        nb[row]@ == b[row]@.update(col, x),
    ensures
        board_key(h, nb) == (board_key(h, b) ^ square_key(h, b[row][col], row, col))
            ^ square_key(h, x, row, col),
{
    lemma_rows_key_update(h, b, nb, 12, row, col, x);
}

impl BoardState {
    pub fn swap_color(&mut self, zobrist_hasher: &ZobristHasher)
        ensures
            *final(self) == color_swapped(*old(self), *zobrist_hasher),
            key_is_current(*zobrist_hasher, *old(self)) ==> key_is_current(
                *zobrist_hasher,
                *final(self),
            ),
    {
        match self.to_move {
            PieceColor::White => self.to_move = PieceColor::Black,
            PieceColor::Black => self.to_move = PieceColor::White,
        }
        // the current play changed so we need to update the key
        self.zobrist_key = self.zobrist_key ^ zobrist_hasher.get_black_to_move_val();
        proof {
            let h = *zobrist_hasher;
            let a = board_key(h, self.board);
            let c = castling_key(h, *self);
            let e = en_passant_part(h, self.pawn_double_move);
            let k = h.black_key();
            assert((((a ^ 0) ^ c) ^ e) ^ k == ((a ^ k) ^ c) ^ e) by (bit_vector);
            assert((((a ^ k) ^ c) ^ e) ^ k == ((a ^ 0) ^ c) ^ e) by (bit_vector);
        }
    }

    /*
        Helper function to take away castling rights, updates the zobrist as well if required

        Also protects against unsetting the castling rights more than once, which would mess
        up the zobrist key
    */
    pub fn take_away_castling_rights(
        &mut self,
        castling_type: CastlingType,
        zobrist_hasher: &ZobristHasher,
    )
        ensures
            *final(self) == without_right(*old(self), castling_type, *zobrist_hasher),
            key_is_current(*zobrist_hasher, *old(self)) ==> key_is_current(
                *zobrist_hasher,
                *final(self),
            ),
    {
        let ghost h = *zobrist_hasher;
        let ghost a = board_key(h, self.board) ^ side_key(h, self.to_move);
        let ghost e = en_passant_part(h, self.pawn_double_move);
        let ghost wk = right_key(h, CastlingType::WhiteKingSide, self.white_king_side_castle);
        let ghost wq = right_key(h, CastlingType::WhiteQueenSide, self.white_queen_side_castle);
        let ghost bk = right_key(h, CastlingType::BlackKingSide, self.black_king_side_castle);
        let ghost bq = right_key(h, CastlingType::BlackQueenSide, self.black_queen_side_castle);
        proof {
            lemma_xor_zero(self.zobrist_key);
        }
        if castling_type == CastlingType::WhiteKingSide {
            if self.white_king_side_castle {
                self.white_king_side_castle = false;
                self.zobrist_key = self.zobrist_key ^ zobrist_hasher.get_val_for_castling(
                    CastlingType::WhiteKingSide,
                );
                assert((((a ^ (((wk ^ wq) ^ bk) ^ bq)) ^ e) ^ wk) == ((a ^ (((0 ^ wq) ^ bk)
                    ^ bq)) ^ e)) by (bit_vector);
            }
        } else if castling_type == CastlingType::WhiteQueenSide {
            if self.white_queen_side_castle {
                self.white_queen_side_castle = false;
                self.zobrist_key = self.zobrist_key ^ zobrist_hasher.get_val_for_castling(
                    CastlingType::WhiteQueenSide,
                );
                assert((((a ^ (((wk ^ wq) ^ bk) ^ bq)) ^ e) ^ wq) == ((a ^ (((wk ^ 0) ^ bk)
                    ^ bq)) ^ e)) by (bit_vector);
            }
        } else if castling_type == CastlingType::BlackKingSide {
            if self.black_king_side_castle {
                self.black_king_side_castle = false;
                self.zobrist_key = self.zobrist_key ^ zobrist_hasher.get_val_for_castling(
                    CastlingType::BlackKingSide,
                );
                assert((((a ^ (((wk ^ wq) ^ bk) ^ bq)) ^ e) ^ bk) == ((a ^ (((wk ^ wq) ^ 0)
                    ^ bq)) ^ e)) by (bit_vector);
            }
        } else if castling_type == CastlingType::BlackQueenSide && self.black_queen_side_castle {
            self.black_queen_side_castle = false;
            self.zobrist_key = self.zobrist_key ^ zobrist_hasher.get_val_for_castling(
                CastlingType::BlackQueenSide,
            );
            assert((((a ^ (((wk ^ wq) ^ bk) ^ bq)) ^ e) ^ bq) == ((a ^ (((wk ^ wq) ^ bk) ^ 0))
                ^ e)) by (bit_vector);
        }
    }

    /*
        Helper function to clear the pawn double move condition and update
        the zobrist key if required
    */
    pub fn unset_pawn_double_move(&mut self, zobrist_hasher: &ZobristHasher)
        requires
            old(self).pawn_double_move matches Some(p) ==> p.1 < BOARD_SIZE,
        ensures
            *final(self) == (BoardState {
                pawn_double_move: None,
                zobrist_key: old(self).zobrist_key ^ en_passant_part(
                    *zobrist_hasher,
                    old(self).pawn_double_move,
                ),
                ..*old(self)
            }),
            key_is_current(*zobrist_hasher, *old(self)) ==> key_is_current(
                *zobrist_hasher,
                *final(self),
            ),
    {
        let ghost h = *zobrist_hasher;
        let ghost a = (board_key(h, self.board) ^ side_key(h, self.to_move)) ^ castling_key(
            h,
            *self,
        );
        if let Some(en_passant_target) = self.pawn_double_move {
            let ghost e = en_passant_part(h, self.pawn_double_move);
            self.pawn_double_move = None;
            self.zobrist_key = self.zobrist_key ^ zobrist_hasher.get_val_for_en_passant(
                en_passant_target.1,
            );
            assert((a ^ e) ^ e == a ^ 0) by (bit_vector);
        } else {
            proof { lemma_xor_zero(self.zobrist_key); }
        }
    }

    /*
        Helper function to move a piece on the board, will also update the zobrist
        hash of the board correctly even with a capture
    */
    pub fn move_piece(&mut self, start: Point, end: Point, zobrist_hasher: &ZobristHasher)
        requires
            in_array(start),
            in_array(end),
        ensures
            *final(self) == moved(*old(self), start, end, *zobrist_hasher),
            key_is_current(*zobrist_hasher, *old(self)) ==> key_is_current(
                *zobrist_hasher,
                *final(self),
            ),
    {
        let ghost h = *zobrist_hasher;
        let ghost old_self = *self;
        if let Square::Full(cur_piece) = self.board[start.0][start.1] {
            let ghost b0 = self.board;
            self.board[start.0][start.1] = Square::Empty;
            let ghost b1 = self.board;
            proof {
                lemma_board_key_update(h, b0, b1, start.0 as int, start.1 as int, Square::Empty);
            }
            let ghost captured = self.board[end.0 as int][end.1 as int];
            if let Square::Full(target_piece) = self.board[end.0][end.1] {
                self.zobrist_key = self.zobrist_key ^ zobrist_hasher.get_val_for_piece(
                    target_piece,
                    end,
                );
            } else {
                proof { lemma_xor_zero(self.zobrist_key); }
            }
            self.board[end.0][end.1] = Square::Full(cur_piece);
            let ghost b2 = self.board;
            proof {
                lemma_board_key_update(h, b1, b2, end.0 as int, end.1 as int, Square::Full(cur_piece));
            }
            self.zobrist_key = self.zobrist_key ^ (zobrist_hasher.get_val_for_piece(cur_piece, start)
                ^ zobrist_hasher.get_val_for_piece(cur_piece, end));
            proof {
                let s = side_key(h, self.to_move);
                let c = castling_key(h, *self);
                let e = en_passant_part(h, self.pawn_double_move);
                let k0 = board_key(h, b0);
                let ps = h.piece_key(cur_piece, start.0 as int, start.1 as int);
                let pe = h.piece_key(cur_piece, end.0 as int, end.1 as int);
                let cap = square_key(h, captured, end.0 as int, end.1 as int);
                assert((((((k0 ^ s) ^ c) ^ e) ^ cap) ^ (ps ^ pe)) == (((((((k0 ^ ps) ^ 0)
                    ^ cap) ^ pe) ^ s) ^ c) ^ e)) by (bit_vector);
                assert(self.board =~= moved(old_self, start, end, h).board);
            }
        }
    }
}

/// A position with one castling right removed; the key changes only where the right was held.
pub open spec fn without_right(s: BoardState, t: CastlingType, h: ZobristHasher) -> BoardState {
    match t {
        CastlingType::WhiteKingSide => BoardState {
            white_king_side_castle: false,
            zobrist_key: s.zobrist_key ^ right_key(h, t, s.white_king_side_castle),
            ..s
        },
        CastlingType::WhiteQueenSide => BoardState {
            white_queen_side_castle: false,
            zobrist_key: s.zobrist_key ^ right_key(h, t, s.white_queen_side_castle),
            ..s
        },
        CastlingType::BlackKingSide => BoardState {
            black_king_side_castle: false,
            zobrist_key: s.zobrist_key ^ right_key(h, t, s.black_king_side_castle),
            ..s
        },
        CastlingType::BlackQueenSide => BoardState {
            black_queen_side_castle: false,
            zobrist_key: s.zobrist_key ^ right_key(h, t, s.black_queen_side_castle),
            ..s
        },
    }
}

/// The position with the other side to move, its key updated.
pub open spec fn color_swapped(b: BoardState, h: ZobristHasher) -> BoardState {
    BoardState { to_move: b.to_move.spec_opposite(), zobrist_key: b.zobrist_key ^ h.black_key(), ..b }
}

/// Handing the move over twice gives back the position, key included.
pub proof fn lemma_swap_color_twice(b: BoardState, h: ZobristHasher)
    ensures
        color_swapped(color_swapped(b, h), h) == b,
{
    let k = b.zobrist_key;
    let x = h.black_key();
    assert((k ^ x) ^ x == k) by (bit_vector);
}

/// Moving a piece to an empty square and back gives back the position, key included.
pub proof fn lemma_move_back(b: BoardState, start: Point, end: Point, h: ZobristHasher)
    requires
        in_array(start),
        in_array(end),
        start != end,
        b.board[start.0 as int][start.1 as int] is Full,
        b.board[end.0 as int][end.1 as int] == Square::Empty,
    ensures
        moved(moved(b, start, end, h), end, start, h) == b,
{
    let p = b.board[start.0 as int][start.1 as int]->0;
    let (r0, c0, r1, c1) = (start.0 as int, start.1 as int, end.0 as int, end.1 as int);
    let e1 = with_square(b.board, r0, c0, Square::Empty);
    let s1 = moved(b, start, end, h);
    assert(e1[r1][c1] == Square::Empty) by {
        if r1 == r0 {
            assert(e1[r1]@ == b.board[r1]@.update(c0, Square::Empty));
        }
    }
    assert(s1.board[r1][c1] == Square::Full(p));
    let e2 = with_square(s1.board, r1, c1, Square::Empty);
    assert(e2[r0][c0] == Square::Empty) by {
        if r1 == r0 {
            assert(e2[r0]@ == s1.board[r0]@.update(c1, Square::Empty));
            assert(s1.board[r0]@ == e1[r0]@.update(c1, Square::Full(p)));
        } else {
            assert(s1.board[r0]@ == e1[r0]@);
        }
    }
    let s2 = moved(s1, end, start, h);
    assert(s2.board =~= b.board) by {
        assert forall|i: int| 0 <= i < 12 implies s2.board[i] =~= b.board[i] by {
            assert forall|j: int| 0 <= j < 12 implies s2.board[i][j] == b.board[i][j] by {
                if i == r0 && j == c0 {
                } else if i == r1 && j == c1 {
                } else {
                    assert(e1[i][j] == b.board[i][j]) by {
                        if i == r0 {
                            assert(e1[i]@ == b.board[i]@.update(c0, Square::Empty));
                        }
                    }
                    assert(s1.board[i][j] == e1[i][j]) by {
                        if i == r1 {
                            assert(s1.board[i]@ == e1[i]@.update(c1, Square::Full(p)));
                        }
                    }
                    assert(e2[i][j] == s1.board[i][j]) by {
                        if i == r1 {
                            assert(e2[i]@ == s1.board[i]@.update(c1, Square::Empty));
                        }
                    }
                    assert(s2.board[i][j] == e2[i][j]) by {
                        if i == r0 {
                            assert(s2.board[i]@ == e2[i]@.update(c0, Square::Full(p)));
                        }
                    }
                }
            }
        }
    }
    let k = b.zobrist_key;
    let a = h.piece_key(p, r0, c0);
    let c = h.piece_key(p, r1, c1);
    assert((((k ^ 0) ^ (a ^ c)) ^ 0) ^ (c ^ a) == k) by (bit_vector);
}

/// A position after the piece on `start` (if any) is moved to `end`, capturing whatever was
/// there; the key changes by the keys of the captured piece and of the moved piece on both
/// squares. When `start` is empty nothing changes.
pub open spec fn moved(s: BoardState, start: Point, end: Point, h: ZobristHasher) -> BoardState {
    let (r0, c0, r1, c1) = (start.0 as int, start.1 as int, end.0 as int, end.1 as int);
    match s.board[r0][c0] {
        Square::Full(p) => {
            let emptied = with_square(s.board, r0, c0, Square::Empty);
            BoardState {
                board: with_square(emptied, r1, c1, Square::Full(p)),
                zobrist_key: (s.zobrist_key ^ square_key(h, emptied[r1][c1], r1, c1)) ^ (
                h.piece_key(p, r0, c0) ^ h.piece_key(p, r1, c1)),
                ..s
            }
        },
        _ => s,
    }
}

/// The plain picture of row `i` of the board, its first `n` squares each as a letter and a
/// space.
pub open spec fn row_picture(b: [[Square; 12]; 12], i: int, n: nat) -> Seq<char>
    decreases n,
{
    if n == 0 {
        Seq::empty()
    } else {
        row_picture(b, i, (n - 1) as nat) + seq![spec_simple_char(b[i][BOARD_START + n - 1]), ' ']
    }
}

/// The plain picture of the first `n` rows of the board, each row followed by its rank.
pub open spec fn board_picture(b: [[Square; 12]; 12], n: nat) -> Seq<char>
    decreases n,
{
    if n == 0 {
        Seq::empty()
    } else {
        let i = BOARD_START + n - 1;
        board_picture(b, (n - 1) as nat) + row_picture(b, i, 8) + seq![
            ' ',
            (('0' as int) + (10 - i)) as char,
            '\n',
        ]
    }
}

impl BoardState {
    /// The Zobrist key of this position, computed from scratch.
    pub fn compute_key(&self, zobrist_hasher: &ZobristHasher) -> (r: u64)
        requires
            self.pawn_double_move matches Some(p) ==> p.1 < BOARD_SIZE,
        ensures
            r == position_key(*zobrist_hasher, *self),
    {
        let ghost h = *zobrist_hasher;
        let mut key: u64 = 0;
        let mut i: usize = 0;
        while i < BOARD_SIZE
            invariant
                i <= BOARD_SIZE,
                h == *zobrist_hasher,
                key == rows_key(h, self.board, i as nat),
            decreases BOARD_SIZE - i,
        {
            let mut j: usize = 0;
            let ghost before = key;
            proof {
                lemma_xor_zero(key);
            }
            while j < BOARD_SIZE
                invariant
                    i < BOARD_SIZE,
                    j <= BOARD_SIZE,
                    h == *zobrist_hasher,
                    before == rows_key(h, self.board, i as nat),
                    key == before ^ row_key(h, self.board[i as int]@, i as int, j as nat),
                decreases BOARD_SIZE - j,
            {
                let ghost prev = row_key(h, self.board[i as int]@, i as int, j as nat);
                let sq = self.board[i][j];
                let x: u64 = match sq {
                    Square::Full(piece) => zobrist_hasher.get_val_for_piece(piece, Point(i, j)),
                    _ => 0,
                };
                assert(x == square_key(h, self.board[i as int]@[j as int], i as int, j as int));
                assert((before ^ prev) ^ x == before ^ (prev ^ x)) by (bit_vector);
                key = key ^ x;
                j = j + 1;
            }
            i = i + 1;
        }
        let side: u64 = match self.to_move {
            PieceColor::Black => zobrist_hasher.get_black_to_move_val(),
            PieceColor::White => 0,
        };
        let wk: u64 = if self.white_king_side_castle { zobrist_hasher.get_val_for_castling(CastlingType::WhiteKingSide) } else { 0 };
        let wq: u64 = if self.white_queen_side_castle { zobrist_hasher.get_val_for_castling(CastlingType::WhiteQueenSide) } else { 0 };
        let bk: u64 = if self.black_king_side_castle { zobrist_hasher.get_val_for_castling(CastlingType::BlackKingSide) } else { 0 };
        let bq: u64 = if self.black_queen_side_castle { zobrist_hasher.get_val_for_castling(CastlingType::BlackQueenSide) } else { 0 };
        let ep: u64 = match self.pawn_double_move {
            Some(p) => zobrist_hasher.get_val_for_en_passant(p.1),
            None => 0,
        };
        ((key ^ side) ^ (((wk ^ wq) ^ bk) ^ bq)) ^ ep
    }
}

impl BoardState {
    /// The board as plain text: a line of file letters, then one line per row from the
    /// eighth rank down, each square as its letter (`.` when empty) and a space, then the rank.
    pub fn simple_board(&self) -> (r: String)
        ensures
            r@ == "\na b c d e f g h\n"@ + board_picture(self.board, 8),
    {
        let mut text = crate::text::chars_of("\na b c d e f g h\n");
        let ghost head = text@;
        let mut i: usize = BOARD_START;
        while i < BOARD_END
            invariant
                BOARD_START <= i <= BOARD_END,
                text@ == head + board_picture(self.board, (i - BOARD_START) as nat),
            decreases BOARD_END - i,
        {
            let ghost before_row = text@;
            let mut j: usize = BOARD_START;
            while j < BOARD_END
                invariant
                    BOARD_START <= i < BOARD_END,
                    BOARD_START <= j <= BOARD_END,
                    text@ == before_row + row_picture(self.board, i as int, (j - BOARD_START) as nat),
                decreases BOARD_END - j,
            {
                text.push(self.board[i][j].simple_char());
                text.push(' ');
                j = j + 1;
            }
            text.push(' ');
            text.push(((48 + (10 - i)) as u8) as char);
            text.push('\n');
            assert(text@ =~= head + board_picture(self.board, (i + 1 - BOARD_START) as nat));
            i = i + 1;
        }
        crate::text::string_of(&text)
    }
}

} // verus!
