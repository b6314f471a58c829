use crate::board::{
    board_key, castling_key, en_passant_part, key_is_current, lemma_board_key_no_pieces,
    lemma_board_key_update, lemma_xor_zero, on_board, side_key, square_key, with_square,
    BoardState, CastlingType, Piece, PieceColor, PieceKind, Point, Square, BOARD_END, BOARD_START,
};
use crate::text::{
    chars_of, contains_char, decimal_value, lemma_occurs_concat, lemma_split_concat,
    lemma_split_no_sep, occurs,
    unsigned_digits, digit_value, is_digit, is_two_bytes, parse_unsigned, split_chars, split_on,
    trim_newline_chars, unsigned_literal, utf8_len, without_newline,
};
use crate::zobrist::{lemma_seeded_unique, ZobristHasher};
use vstd::prelude::*;

verus! {

// Board position for the start of a new game
pub const DEFAULT_FEN_STRING: &'static str = "rnbqkbnr/pppppppp/8/8/8/8/PPPPPPPP/RNBQKBNR w KQkq - 0 1";

/// Why a FEN string or an algebraic square was refused.
#[derive(Copy, Clone, PartialEq, Eq, Debug, Structural)]
pub enum ParseError {
    InvalidFen,
    MissingPlayer,
    InvalidHalfMove,
    InvalidFullMove,
    InvalidRowCount,
    IndexOutOfBounds,
    InvalidCharacter,
    IncompleteRow,
    InvalidEnPassant,
    InvalidLength,
    InvalidColumn,
    InvalidRow,
}

impl ParseError {
    /// The message reported for this error.
    pub open spec fn text(self) -> Seq<char> {
        match self {
            ParseError::InvalidFen => "Could not parse fen string: Invalid fen string"@,
            ParseError::MissingPlayer => "Could not parse fen string: Next player to move was not provided"@,
            ParseError::InvalidHalfMove => "Could not parse fen string: Invalid half move value"@,
            ParseError::InvalidFullMove => "Could not parse fen string: Invalid full move value"@,
            ParseError::InvalidRowCount => "Could not parse fen string: Invalid number of rows provided, 8 expected"@,
            ParseError::IndexOutOfBounds => "Could not parse fen string: Index out of bounds"@,
            ParseError::InvalidCharacter => "Could not parse fen string: Invalid character found"@,
            ParseError::IncompleteRow => "Could not parse fen string: Complete row was not specified"@,
            ParseError::InvalidEnPassant => "Could not parse fen string: En passant string not valid"@,
            ParseError::InvalidLength => "Invalid length for algebraic string"@,
            ParseError::InvalidColumn => "Invalid column"@,
            ParseError::InvalidRow => "Invalid row"@,
        }
    }

    /// The message reported for this error.
    pub fn message(self) -> (r: &'static str)
        ensures
            r@ == self.text(),
    {
        match self {
            ParseError::InvalidFen => "Could not parse fen string: Invalid fen string",
            ParseError::MissingPlayer => "Could not parse fen string: Next player to move was not provided",
            ParseError::InvalidHalfMove => "Could not parse fen string: Invalid half move value",
            ParseError::InvalidFullMove => "Could not parse fen string: Invalid full move value",
            ParseError::InvalidRowCount => "Could not parse fen string: Invalid number of rows provided, 8 expected",
            ParseError::IndexOutOfBounds => "Could not parse fen string: Index out of bounds",
            ParseError::InvalidCharacter => "Could not parse fen string: Invalid character found",
            ParseError::IncompleteRow => "Could not parse fen string: Complete row was not specified",
            ParseError::InvalidEnPassant => "Could not parse fen string: En passant string not valid",
            ParseError::InvalidLength => "Invalid length for algebraic string",
            ParseError::InvalidColumn => "Invalid column",
            ParseError::InvalidRow => "Invalid row",
        }
    }
}

/// The outcome of reading a text: a value, a refusal, or an input the reader cannot handle.
#[derive(Copy, Clone, PartialEq, Eq, Debug, Structural)]
pub enum Parsed<T> {
    Value(T),
    Refused(ParseError),
    Unreadable,
}

/// The column index (0 for file a) of a file letter.
pub open spec fn file_index(c: char) -> Option<int> {
    if 'a' <= c <= 'h' {
        Some(c as int - 'a' as int)
    } else {
        None
    }
}

/// How an algebraic square such as `e4` is read: it must take two bytes, name a file `a`-`h`
/// and a rank `1`-`8`. A two-byte text of one character, or a valid file followed by a
/// character that is not a digit, cannot be read.
pub open spec fn point_parse(pair: Seq<char>) -> Parsed<Point> {
    if utf8_len(pair) != 2 {
        Parsed::Refused(ParseError::InvalidLength)
    } else if pair.len() < 2 {
        Parsed::Unreadable
    } else {
        match file_index(pair[0]) {
            None => Parsed::Refused(ParseError::InvalidColumn),
            Some(col) => if !is_digit(pair[1]) {
                Parsed::Unreadable
            } else {
                let row = BOARD_END - digit_value(pair[1]);
                if !(BOARD_START <= row < BOARD_END) {
                    Parsed::Refused(ParseError::InvalidRow)
                } else {
                    Parsed::Value(Point(row as usize, (col + BOARD_START) as usize))
                }
            },
        }
    }
}

/// The algebraic name of a point: file letter then rank digit. Columns and rows outside
/// the playing area are written as file `h` and rank `1`.
pub open spec fn algebraic(p: Point) -> Seq<char> {
    let file = if 2 <= p.1 <= 9 { (('a' as int) + p.1 - 2) as char } else { 'h' };
    let rank = if 2 <= p.0 <= 9 { (('8' as int) - (p.0 - 2)) as char } else { '1' };
    seq![file, rank]
}

pub(crate) fn parse_point_chars(pair: &Vec<char>) -> (r: Result<Point, ParseError>)
    requires
        point_parse(pair@) != Parsed::<Point>::Unreadable,
    ensures
        match point_parse(pair@) {
            Parsed::Value(p) => r == Ok::<Point, ParseError>(p),
            Parsed::Refused(e) => r == Err::<Point, ParseError>(e),
            Parsed::Unreadable => false,
        },
{
    if !is_two_bytes(pair) {
        return Err(ParseError::InvalidLength);
    }
    let c = pair[0];
    let r = pair[1];
    let col: usize = if 'a' <= c && c <= 'h' {
        (c as u32 - 'a' as u32) as usize
    } else {
        return Err(ParseError::InvalidColumn);
    };
    let digit = (r as u32 - '0' as u32) as usize;
    if digit > BOARD_END || BOARD_END - digit < BOARD_START || BOARD_END - digit >= BOARD_END {
        return Err(ParseError::InvalidRow);
    }
    Ok(Point(BOARD_END - digit, col + BOARD_START))
}

/// How an algebraic square reads: its point, why it is refused, or that it cannot be read.
pub fn point_parse_status(pair: &Vec<char>) -> (r: Parsed<Point>)
    ensures
        r == point_parse(pair@),
{
    if !is_two_bytes(pair) {
        return Parsed::Refused(ParseError::InvalidLength);
    }
    if pair.len() < 2 {
        return Parsed::Unreadable;
    }
    let c = pair[0];
    if !('a' <= c && c <= 'h') {
        return Parsed::Refused(ParseError::InvalidColumn);
    }
    let r = pair[1];
    if !('0' <= r && r <= '9') {
        return Parsed::Unreadable;
    }
    match parse_point_chars(pair) {
        Ok(p) => Parsed::Value(p),
        Err(e) => Parsed::Refused(e),
    }
}

impl Point {
    // Parse an algebraic pair into a board position
    pub fn from_algebraic(pair: &str) -> (r: Result<Point, &'static str>)
        requires
            point_parse(pair@) != Parsed::<Point>::Unreadable,
        ensures
            match point_parse(pair@) {
                Parsed::Value(p) => r == Ok::<Point, &'static str>(p),
                Parsed::Refused(e) => r matches Err(m) && m@ == e.text(),
                Parsed::Unreadable => false,
            },
    {
        let chars = chars_of(pair);
        match parse_point_chars(&chars) {
            Ok(p) => Ok(p),
            Err(e) => Err(e.message()),
        }
    }

    /// The algebraic name of this point, such as `e4` (the same text as `to_algebraic`).
    pub fn to_string(&self) -> (r: String)
        ensures
            r@ == algebraic(*self),
    {
        self.to_algebraic()
    }

    /// The algebraic name of this point, such as `e4`.
    pub fn to_algebraic(&self) -> (r: String)
        ensures
            r@ == algebraic(*self),
    {
        let file = if 2 <= self.1 && self.1 <= 9 {
            char_from_code('a' as u32 + (self.1 - 2) as u32)
        } else {
            'h'
        };
        let rank = if 2 <= self.0 && self.0 <= 9 {
            char_from_code('8' as u32 - (self.0 - 2) as u32)
        } else {
            '1'
        };
        let mut s = String::new();
        crate::text::push_char(&mut s, file);
        crate::text::push_char(&mut s, rank);
        s
    }
}

/// Reads an algebraic pair such as `e4`; a text whose second character is not a digit is
/// refused as an invalid row.
impl std::str::FromStr for Point {
    type Err = &'static str;

    fn from_str(pair: &str) -> (r: Result<Point, &'static str>)
        ensures
            match point_parse(pair@) {
                Parsed::Value(p) => r == Ok::<Point, &'static str>(p),
                Parsed::Refused(e) => r matches Err(m) && m@ == e.text(),
                Parsed::Unreadable => r matches Err(m) && m@ == ParseError::InvalidRow.text(),
            },
    {
        let chars = chars_of(pair);
        match point_parse_status(&chars) {
            Parsed::Value(p) => Ok(p),
            Parsed::Refused(e) => Err(e.message()),
            Parsed::Unreadable => Err(ParseError::InvalidRow.message()),
        }
    }
}

/// The ASCII character with code `code`.
fn char_from_code(code: u32) -> (r: char)
    requires
        code < 128,
    ensures
        r as int == code,
{
    let b = code as u8;
    b as char
}

/// The piece a FEN letter stands for: `rnbqkp` for black, `RNBQKP` for white.
pub open spec fn fen_piece(c: char) -> Option<Piece> {
    let black = |kind: PieceKind| Some(Piece { color: PieceColor::Black, kind });
    let white = |kind: PieceKind| Some(Piece { color: PieceColor::White, kind });
    if c == 'r' {
        black(PieceKind::Rook)
    } else if c == 'n' {
        black(PieceKind::Knight)
    } else if c == 'b' {
        black(PieceKind::Bishop)
    } else if c == 'q' {
        black(PieceKind::Queen)
    } else if c == 'k' {
        black(PieceKind::King)
    } else if c == 'p' {
        black(PieceKind::Pawn)
    } else if c == 'R' {
        white(PieceKind::Rook)
    } else if c == 'N' {
        white(PieceKind::Knight)
    } else if c == 'B' {
        white(PieceKind::Bishop)
    } else if c == 'Q' {
        white(PieceKind::Queen)
    } else if c == 'K' {
        white(PieceKind::King)
    } else if c == 'P' {
        white(PieceKind::Pawn)
    } else {
        None
    }
}

/// The squares a FEN row describes, read from the left: a digit stands for that many empty
/// squares, a letter for a piece. A digit that runs past the edge of the board is refused,
/// as is a character that is neither; a piece letter beyond the two columns of padding to the
/// right of the board cannot be read.
pub open spec fn row_parse(row: Seq<char>) -> Parsed<Seq<Square>>
    decreases row.len(),
{
    if row.len() == 0 {
        Parsed::Value(Seq::empty())
    } else {
        match row_parse(row.drop_last()) {
            Parsed::Value(cells) => {
                let c = row.last();
                if is_digit(c) {
                    if digit_value(c) + cells.len() + BOARD_START > BOARD_END {
                        Parsed::Refused(ParseError::IndexOutOfBounds)
                    } else {
                        Parsed::Value(cells + Seq::new(digit_value(c) as nat, |i: int| Square::Empty))
                    }
                } else {
                    match fen_piece(c) {
                        None => Parsed::Refused(ParseError::InvalidCharacter),
                        Some(p) => if cells.len() + BOARD_START >= 12 {
                            Parsed::Unreadable
                        } else {
                            Parsed::Value(cells.push(Square::Full(p)))
                        },
                    }
                }
            },
            other => other,
        }
    }
}

/// A FEN row must describe exactly eight squares.
pub open spec fn row_result(row: Seq<char>) -> Parsed<Seq<Square>> {
    match row_parse(row) {
        Parsed::Value(cells) => if cells.len() == 8 {
            Parsed::Value(cells)
        } else {
            Parsed::Refused(ParseError::IncompleteRow)
        },
        other => other,
    }
}

/// The outcome of the first `n` rows: the first row that is refused or cannot be read decides.
pub open spec fn rows_outcome(rows: Seq<Seq<char>>, n: nat) -> Parsed<()>
    decreases n,
{
    if n == 0 {
        Parsed::Value(())
    } else {
        match rows_outcome(rows, (n - 1) as nat) {
            Parsed::Value(_) => match row_result(rows[n - 1]) {
                Parsed::Value(_) => Parsed::Value(()),
                Parsed::Refused(e) => Parsed::Refused(e),
                Parsed::Unreadable => Parsed::Unreadable,
            },
            other => other,
        }
    }
}

/// Whether `s` holds a value of at most 255 written as an unsigned decimal literal.
pub open spec fn is_u8_literal(s: Seq<char>) -> bool {
    unsigned_literal(s) matches Some(v) && v <= 255
}

/// The space separated fields of a FEN string, one trailing line break removed.
pub open spec fn fen_fields(fen: Seq<char>) -> Seq<Seq<char>> {
    split_on(without_newline(fen), ' ')
}

/// The rows of the board field of a FEN string.
pub open spec fn fen_rows(fen: Seq<char>) -> Seq<Seq<char>> {
    split_on(fen_fields(fen)[0], '/')
}

/// What decides a FEN string once its fields, player and clocks were accepted and it has
/// eight rows: each row in turn, then the en passant field, which must be `-` or take two bytes.
pub open spec fn fen_tail(fen: Seq<char>) -> Parsed<()> {
    let f = fen_fields(fen);
    match rows_outcome(fen_rows(fen), 8) {
        Parsed::Value(_) => if utf8_len(f[3]) != 2 {
            if f[3] != seq!['-'] {
                Parsed::Refused(ParseError::InvalidEnPassant)
            } else {
                Parsed::Value(())
            }
        } else if point_parse(f[3]) == Parsed::<Point>::Unreadable {
            Parsed::Unreadable
        } else {
            Parsed::Value(())
        },
        other => other,
    }
}

/// Whether a FEN string is accepted, refused (and why), or cannot be read. The checks come
/// in this order: six fields, the player to move, the half and full move clocks, eight rows,
/// each row in turn, and the en passant field.
pub open spec fn fen_check(fen: Seq<char>) -> Parsed<()> {
    let f = fen_fields(fen);
    if f.len() != 6 {
        Parsed::Refused(ParseError::InvalidFen)
    } else if f[1] != seq!['w'] && f[1] != seq!['b'] {
        Parsed::Refused(ParseError::MissingPlayer)
    } else if !is_u8_literal(f[4]) {
        Parsed::Refused(ParseError::InvalidHalfMove)
    } else if !is_u8_literal(f[5]) {
        Parsed::Refused(ParseError::InvalidFullMove)
    } else if fen_rows(fen).len() != 8 {
        Parsed::Refused(ParseError::InvalidRowCount)
    } else {
        fen_tail(fen)
    }
}

/// `q` comes after `p` when the board is read row by row from the top left.
pub open spec fn later(q: Point, p: Point) -> bool {
    q.0 > p.0 || (q.0 == p.0 && q.1 > p.1)
}

/// `loc` is the last square (reading row by row) of the playing area, above row `upto`,
/// holding `k`; or (0, 0) when there is none.
pub open spec fn is_last_before(b: [[Square; 12]; 12], k: Square, loc: Point, upto: int) -> bool {
    if exists|q: Point| on_board(q) && q.0 < upto && #[trigger] b[q.0 as int][q.1 as int] == k {
        on_board(loc) && loc.0 < upto && b[loc.0 as int][loc.1 as int] == k && forall|q: Point|
            on_board(q) && q.0 < upto && later(q, loc) ==> #[trigger] b[q.0 as int][q.1 as int] != k
    } else {
        loc == Point(0, 0)
    }
}

/// The square of the playing area holding `k` that comes last reading row by row, or (0, 0).
pub open spec fn is_last_on_board(b: [[Square; 12]; 12], k: Square, loc: Point) -> bool {
    is_last_before(b, k, loc, BOARD_END as int)
}

/// The en passant target a FEN string names, if any.
pub open spec fn fen_en_passant(fen: Seq<char>) -> Option<Point> {
    let e = fen_fields(fen)[3];
    if utf8_len(e) == 2 {
        match point_parse(e) {
            Parsed::Value(p) => Some(p),
            _ => None,
        }
    } else {
        None
    }
}

/// Whether `b` is the position an accepted FEN string describes, its Zobrist key aside.
pub open spec fn is_fen_position(fen: Seq<char>, b: BoardState) -> bool {
    let f = fen_fields(fen);
    let rows = fen_rows(fen);
    &&& b.to_move == if f[1] == seq!['w'] { PieceColor::White } else { PieceColor::Black }
    &&& forall|r: int, c: int|
        0 <= r < 12 && 0 <= c < 12 ==> #[trigger] b.board[r][c] == if BOARD_START <= r < BOARD_END
            && BOARD_START <= c < BOARD_END {
            row_parse(rows[r - BOARD_START])->Value_0[c - BOARD_START]
        } else {
            Square::Boundary
        }
    &&& is_last_on_board(
        b.board,
        Square::Full(Piece { color: PieceColor::White, kind: PieceKind::King }),
        b.white_king_location,
    )
    &&& is_last_on_board(
        b.board,
        Square::Full(Piece { color: PieceColor::Black, kind: PieceKind::King }),
        b.black_king_location,
    )
    &&& b.pawn_double_move == fen_en_passant(fen)
    &&& b.white_king_side_castle == f[2].contains('K')
    &&& b.white_queen_side_castle == f[2].contains('Q')
    &&& b.black_king_side_castle == f[2].contains('k')
    &&& b.black_queen_side_castle == f[2].contains('q')
    &&& b.order_heuristic == i32::MIN
    &&& b.last_move == None::<(Point, Point)>
    &&& b.pawn_promotion == None::<Piece>
}

fn piece_from_fen_string_char(piece: char) -> (r: Option<Piece>)
    ensures
        r == fen_piece(piece),
{
    match piece {
        'r' => Some(Piece { color: PieceColor::Black, kind: PieceKind::Rook }),
        'n' => Some(Piece { color: PieceColor::Black, kind: PieceKind::Knight }),
        'b' => Some(Piece { color: PieceColor::Black, kind: PieceKind::Bishop }),
        'q' => Some(Piece { color: PieceColor::Black, kind: PieceKind::Queen }),
        'k' => Some(Piece { color: PieceColor::Black, kind: PieceKind::King }),
        'p' => Some(Piece { color: PieceColor::Black, kind: PieceKind::Pawn }),
        'R' => Some(Piece { color: PieceColor::White, kind: PieceKind::Rook }),
        'N' => Some(Piece { color: PieceColor::White, kind: PieceKind::Knight }),
        'B' => Some(Piece { color: PieceColor::White, kind: PieceKind::Bishop }),
        'Q' => Some(Piece { color: PieceColor::White, kind: PieceKind::Queen }),
        'K' => Some(Piece { color: PieceColor::White, kind: PieceKind::King }),
        'P' => Some(Piece { color: PieceColor::White, kind: PieceKind::Pawn }),
        _ => None,
    }
}

/// Once a prefix of a row is refused or unreadable, so is the whole row, for the same reason.
proof fn lemma_row_parse_prefix(row: Seq<char>, i: int)
    requires
        0 <= i <= row.len(),
        !(row_parse(row.take(i)) is Value),
    ensures
        row_parse(row) == row_parse(row.take(i)),
    decreases row.len() - i,
{
    if i < row.len() {
        assert(row.take(i + 1).drop_last() =~= row.take(i));
        lemma_row_parse_prefix(row, i + 1);
    } else {
        assert(row.take(i) =~= row);
    }
}

/// `loc` is the last square of row `row` (among its first `n` cells, from column 2) holding `k`,
/// or `prev` when none does.
pub open spec fn last_in_row(cells: Seq<Square>, k: Square, row: int, prev: Point, loc: Point) -> bool {
    if exists|j: int| 0 <= j < cells.len() && cells[j] == k {
        loc.0 == row && BOARD_START <= loc.1 < BOARD_START + cells.len() && cells[loc.1 - BOARD_START]
            == k && forall|j: int| loc.1 - BOARD_START < j < cells.len() ==> #[trigger] cells[j] != k
    } else {
        loc == prev
    }
}

/// Appending a square to a row moves the last occurrence of `k` to that square exactly when
/// the square holds `k`.
proof fn lemma_last_in_row_push(
    cells: Seq<Square>,
    k: Square,
    row: int,
    prev: Point,
    loc: Point,
    x: Square,
    nloc: Point,
)
    requires
        last_in_row(cells, k, row, prev, loc),
        x == k ==> nloc.0 == row && nloc.1 == BOARD_START + cells.len(),
        x != k ==> nloc == loc,
    ensures
        last_in_row(cells.push(x), k, row, prev, nloc),
{
    let n = cells.push(x);
    if x == k {
        assert(n[cells.len() as int] == k);
    } else if exists|j: int| 0 <= j < cells.len() && cells[j] == k {
        let j = choose|j: int| 0 <= j < cells.len() && cells[j] == k;
        assert(n[j] == k);
        assert forall|j2: int| loc.1 - BOARD_START < j2 < n.len() implies #[trigger] n[j2] != k by {
            if j2 < cells.len() {
                assert(cells[j2] != k);
            }
        }
    } else {
        assert forall|j: int| 0 <= j < n.len() implies n[j] != k by {
            if j < cells.len() {
                assert(cells[j] != k);
            }
        }
    }
}

pub proof fn lemma_xor_cancel(k: u64, b: u64, p: u64)
    ensures
        (k ^ p) ^ (b ^ p) == k ^ b,
{
    assert((k ^ p) ^ (b ^ p) == k ^ b) by (bit_vector);
}

/// Reads one FEN row into row `row` of the board, keeping the Zobrist key in step with the
/// pieces placed and tracking the last king of each color.
fn parse_row(
    board: &mut [[Square; 12]; 12],
    row: usize,
    chars: &Vec<char>,
    key: &mut u64,
    zobrist_hasher: &ZobristHasher,
    white_king_location: &mut Point,
    black_king_location: &mut Point,
) -> (r: Parsed<()>)
    requires
        BOARD_START <= row < BOARD_END,
        forall|c: int| 0 <= c < 12 ==> #[trigger] old(board)[row as int][c] == Square::Boundary,
    ensures
        forall|i: int| 0 <= i < 12 && i != row ==> #[trigger] final(board)[i] == old(board)[i],
        *final(key) ^ board_key(*zobrist_hasher, *final(board)) == *old(key) ^ board_key(
            *zobrist_hasher,
            *old(board),
        ),
        match row_result(chars@) {
            Parsed::Value(cells) => {
                &&& r is Value
                &&& forall|c: int|
                    0 <= c < 12 ==> #[trigger] final(board)[row as int][c] == if BOARD_START <= c
                        < BOARD_END {
                        cells[c - BOARD_START]
                    } else {
                        Square::Boundary
                    }
                &&& last_in_row(
                    cells,
                    Square::Full(Piece { color: PieceColor::White, kind: PieceKind::King }),
                    row as int,
                    *old(white_king_location),
                    *final(white_king_location),
                )
                &&& last_in_row(
                    cells,
                    Square::Full(Piece { color: PieceColor::Black, kind: PieceKind::King }),
                    row as int,
                    *old(black_king_location),
                    *final(black_king_location),
                )
            },
            Parsed::Refused(e) => r == Parsed::<()>::Refused(e),
            Parsed::Unreadable => r == Parsed::<()>::Unreadable,
        },
{
    let ghost h = *zobrist_hasher;
    let ghost b0 = *board;
    let ghost k0 = *key;
    let ghost wk0 = *white_king_location;
    let ghost bk0 = *black_king_location;
    let ghost wking = Square::Full(Piece { color: PieceColor::White, kind: PieceKind::King });
    let ghost bking = Square::Full(Piece { color: PieceColor::Black, kind: PieceKind::King });
    let ghost mut cells: Seq<Square> = Seq::empty();
    let mut col: usize = BOARD_START;
    let mut i: usize = 0;
    proof {
        assert(chars@.take(0) =~= Seq::<char>::empty());
    }
    while i < chars.len()
        invariant
            BOARD_START <= row < BOARD_END,
            i <= chars.len(),
            row_parse(chars@.take(i as int)) == Parsed::Value(cells),
            col == BOARD_START + cells.len(),
            col <= 12,
            forall|c: int|
                0 <= c < 12 ==> #[trigger] board[row as int][c] == if BOARD_START <= c < col {
                    cells[c - BOARD_START]
                } else {
                    Square::Boundary
                },
            forall|j: int| 0 <= j < 12 && j != row ==> #[trigger] board[j] == b0[j],
            *key ^ board_key(h, *board) == k0 ^ board_key(h, b0),
            h == *zobrist_hasher,
            b0 == *old(board),
            k0 == *old(key),
            wk0 == *old(white_king_location),
            bk0 == *old(black_king_location),
            wking == Square::Full(Piece { color: PieceColor::White, kind: PieceKind::King }),
            bking == Square::Full(Piece { color: PieceColor::Black, kind: PieceKind::King }),
            last_in_row(cells, wking, row as int, wk0, *white_king_location),
            last_in_row(cells, bking, row as int, bk0, *black_king_location),
        decreases chars.len() - i,
    {
        let square = chars[i];
        proof {
            assert(chars@.take(i + 1).drop_last() =~= chars@.take(i as int));
            assert(chars@.take(i + 1).last() == square);
        }
        if '0' <= square && square <= '9' {
            let square_skip_count = (square as u32 - '0' as u32) as usize;
            if square_skip_count + col > BOARD_END {
                proof {
                    lemma_row_parse_prefix(chars@, i + 1);
                }
                return Parsed::Refused(ParseError::IndexOutOfBounds);
            }
            let ghost cells0 = cells;
            let mut n: usize = 0;
            while n < square_skip_count
                invariant
                    BOARD_START <= row < BOARD_END,
                    n <= square_skip_count,
                    square_skip_count + BOARD_START + cells0.len() <= BOARD_END,
                    cells == cells0 + Seq::new(n as nat, |q: int| Square::Empty),
                    col == BOARD_START + cells.len(),
                    forall|c: int|
                        0 <= c < 12 ==> #[trigger] board[row as int][c] == if BOARD_START <= c < col {
                            cells[c - BOARD_START]
                        } else {
                            Square::Boundary
                        },
                    forall|j: int| 0 <= j < 12 && j != row ==> #[trigger] board[j] == b0[j],
                    *key ^ board_key(h, *board) == k0 ^ board_key(h, b0),
                    b0 == *old(board),
                    k0 == *old(key),
                    wk0 == *old(white_king_location),
                    bk0 == *old(black_king_location),
                    wking == Square::Full(Piece { color: PieceColor::White, kind: PieceKind::King }),
                    bking == Square::Full(Piece { color: PieceColor::Black, kind: PieceKind::King }),
                    last_in_row(cells, wking, row as int, wk0, *white_king_location),
                    last_in_row(cells, bking, row as int, bk0, *black_king_location),
                decreases square_skip_count - n,
            {
                let ghost before = *board;
                board[row][col] = Square::Empty;
                proof {
                    lemma_board_key_update(h, before, *board, row as int, col as int, Square::Empty);
                    lemma_xor_zero(board_key(h, before));
                    assert(board_key(h, *board) == board_key(h, before));
                    lemma_last_in_row_push(cells, wking, row as int, wk0, *white_king_location, Square::Empty, *white_king_location);
                    lemma_last_in_row_push(cells, bking, row as int, bk0, *black_king_location, Square::Empty, *black_king_location);
                    let ncells = cells.push(Square::Empty);
                    assert(ncells =~= cells0 + Seq::new((n + 1) as nat, |q: int| Square::Empty));
                    cells = ncells;
                }
                col = col + 1;
                n = n + 1;
            }
            proof {
                assert(cells =~= cells0 + Seq::new(digit_value(square) as nat, |q: int| Square::Empty));
            }
        } else {
            let piece = match piece_from_fen_string_char(square) {
                Some(piece) => piece,
                None => {
                    proof {
                        lemma_row_parse_prefix(chars@, i + 1);
                    }
                    return Parsed::Refused(ParseError::InvalidCharacter);
                },
            };
            if col >= 12 {
                proof {
                    lemma_row_parse_prefix(chars@, i + 1);
                }
                return Parsed::Unreadable;
            }
            let ghost before = *board;
            let ghost kb = *key;
            let ghost pk = h.piece_key(piece, row as int, col as int);
            assert(before[row as int][col as int] == Square::Boundary);
            board[row][col] = Square::Full(piece);
            *key = *key ^ zobrist_hasher.get_val_for_piece(piece, Point(row, col));
            proof {
                lemma_board_key_update(h, before, *board, row as int, col as int, Square::Full(piece));
                lemma_xor_zero(board_key(h, before));
                lemma_xor_cancel(kb, board_key(h, before), pk);
            }
            let ghost wl = *white_king_location;
            let ghost bl = *black_king_location;
            if piece.kind == PieceKind::King {
                match piece.color {
                    PieceColor::White => *white_king_location = Point(row, col),
                    PieceColor::Black => *black_king_location = Point(row, col),
                }
            }
            proof {
                lemma_last_in_row_push(cells, wking, row as int, wk0, wl, Square::Full(piece), *white_king_location);
                lemma_last_in_row_push(cells, bking, row as int, bk0, bl, Square::Full(piece), *black_king_location);
                cells = cells.push(Square::Full(piece));
            }
            col = col + 1;
        }
        i = i + 1;
    }
    proof {
        assert(chars@.take(chars.len() as int) =~= chars@);
    }
    if col != BOARD_END {
        return Parsed::Refused(ParseError::IncompleteRow);
    }
    Parsed::Value(())
}

/// Once a row is refused or cannot be read, the outcome of all later prefixes is the same.
proof fn lemma_rows_outcome_stuck(rows: Seq<Seq<char>>, n: nat, m: nat)
    requires
        n <= m,
        !(rows_outcome(rows, n) is Value),
    ensures
        rows_outcome(rows, m) == rows_outcome(rows, n),
    decreases m - n,
{
    if n < m {
        lemma_rows_outcome_stuck(rows, n, (m - 1) as nat);
    }
}

/// Reading one more row moves the last king seen to that row exactly when the row has one.
proof fn lemma_last_before_step(
    b: [[Square; 12]; 12],
    nb: [[Square; 12]; 12],
    k: Square,
    prev: Point,
    loc: Point,
    row: int,
    cells: Seq<Square>,
)
    requires
        BOARD_START <= row < BOARD_END,
        cells.len() == 8,
        is_last_before(b, k, prev, row),
        forall|i: int| 0 <= i < 12 && i != row ==> #[trigger] nb[i] == b[i],
        forall|c: int| BOARD_START <= c < BOARD_END ==> #[trigger] nb[row][c] == cells[c - BOARD_START],
        last_in_row(cells, k, row, prev, loc),
    ensures
        is_last_before(nb, k, loc, row + 1),
{
    if exists|j: int| 0 <= j < cells.len() && cells[j] == k {
        assert(nb[loc.0 as int][loc.1 as int] == k);
        assert forall|q: Point|
            on_board(q) && q.0 < row + 1 && later(q, loc) implies #[trigger] nb[q.0 as int][q.1 as int] != k by {
            assert(q.0 == row);
            assert(cells[q.1 - BOARD_START] != k);
        }
    } else {
        assert forall|q: Point| on_board(q) && q.0 == row implies #[trigger] nb[q.0 as int][q.1 as int] != k by {
            assert(cells[q.1 - BOARD_START] != k);
        }
        assert forall|q: Point| on_board(q) && q.0 < row implies #[trigger] nb[q.0 as int][q.1 as int]
            == b[q.0 as int][q.1 as int] by {
            assert(nb[q.0 as int] == b[q.0 as int]);
        }
        if exists|q: Point| on_board(q) && q.0 < row && #[trigger] b[q.0 as int][q.1 as int] == k {
            let q = choose|q: Point| on_board(q) && q.0 < row && #[trigger] b[q.0 as int][q.1 as int] == k;
            assert(nb[q.0 as int][q.1 as int] == k);
            assert(nb[prev.0 as int][prev.1 as int] == k);
        } else {
            assert forall|q: Point| on_board(q) && q.0 < row + 1 implies #[trigger] nb[q.0 as int][q.1 as int]
                != k by {
                if q.0 < row {
                    assert(b[q.0 as int][q.1 as int] != k);
                }
            }
        }
    }
}

proof fn lemma_xor_unshift(x: u64, y: u64, z: u64)
    requires
        x ^ y == z,
    ensures
        x == z ^ y,
{
    assert(x ^ y == z ==> x == z ^ y) by (bit_vector);
}

proof fn lemma_fen_key_order(s: u64, a: u64, e: u64, w1: u64, w2: u64, w3: u64, w4: u64)
    ensures
        (((((s ^ a) ^ e) ^ w1) ^ w2) ^ w3) ^ w4 == ((a ^ s) ^ (((w1 ^ w2) ^ w3) ^ w4)) ^ e,
{
    assert((((((s ^ a) ^ e) ^ w1) ^ w2) ^ w3) ^ w4 == ((a ^ s) ^ (((w1 ^ w2) ^ w3) ^ w4)) ^ e)
        by (bit_vector);
}

impl BoardState {
    /// Reads a FEN string, keying the position with `zobrist_hasher`.
    fn from_fen_with(fen: &str, zobrist_hasher: &ZobristHasher) -> (r: Parsed<BoardState>)
        ensures
            match fen_check(fen@) {
                Parsed::Value(_) => r matches Parsed::Value(b) && is_fen_position(fen@, b)
                    && key_is_current(*zobrist_hasher, b),
                Parsed::Refused(e) => r == Parsed::<BoardState>::Refused(e),
                Parsed::Unreadable => r == Parsed::<BoardState>::Unreadable,
            },
    {
        let ghost h = *zobrist_hasher;
        let ghost wking = Square::Full(Piece { color: PieceColor::White, kind: PieceKind::King });
        let ghost bking = Square::Full(Piece { color: PieceColor::Black, kind: PieceKind::King });
        let mut chars = chars_of(fen);
        trim_newline_chars(&mut chars);
        let fields = split_chars(&chars, ' ');
        let ghost f = fen_fields(fen@);
        if fields.len() != 6 {
            return Parsed::Refused(ParseError::InvalidFen);
        }
        assert(fields@[1]@ == f[1]);
        let to_move = if fields[1].len() == 1 && fields[1][0] == 'w' {
            assert(f[1] =~= seq!['w']);
            PieceColor::White
        } else if fields[1].len() == 1 && fields[1][0] == 'b' {
            assert(f[1] =~= seq!['b']);
            assert(f[1] != seq!['w']);
            PieceColor::Black
        } else {
            assert(seq!['w'].len() == 1 && seq!['w'][0] == 'w');
            assert(seq!['b'].len() == 1 && seq!['b'][0] == 'b');
            return Parsed::Refused(ParseError::MissingPlayer);
        };
        let mut zobrist_key: u64 = if to_move == PieceColor::Black {
            zobrist_hasher.get_black_to_move_val()
        } else {
            0
        };
        let ghost k0 = zobrist_key;
        assert(fields@[4]@ == f[4] && fields@[5]@ == f[5]);
        if parse_unsigned(&fields[4], 255).is_none() {
            return Parsed::Refused(ParseError::InvalidHalfMove);
        }
        if parse_unsigned(&fields[5], 255).is_none() {
            return Parsed::Refused(ParseError::InvalidFullMove);
        }
        let rows = split_chars(&fields[0], '/');
        let ghost rows_s = fen_rows(fen@);
        assert(fields@[0]@ == f[0]);
        if rows.len() != 8 {
            return Parsed::Refused(ParseError::InvalidRowCount);
        }
        assert(fen_check(fen@) == fen_tail(fen@));
        let mut board = [[Square::Boundary; 12]; 12];
        proof {
            lemma_board_key_no_pieces(h, board);
            lemma_xor_zero(k0);
        }
        let mut white_king_location = Point(0, 0);
        let mut black_king_location = Point(0, 0);
        let mut r: usize = 0;
        while r < 8
            invariant
                r <= 8,
                rows@.len() == 8,
                rows_s == fen_rows(fen@),
                forall|j: int| 0 <= j < 8 ==> #[trigger] rows@[j]@ == rows_s[j],
                fen_check(fen@) == fen_tail(fen@),
                rows_outcome(rows_s, r as nat) == Parsed::Value(()),
                forall|i: int, c: int|
                    0 <= i < 12 && 0 <= c < 12 ==> #[trigger] board[i][c] == if BOARD_START <= i
                        < BOARD_START + r && BOARD_START <= c < BOARD_END {
                        row_parse(rows_s[i - BOARD_START])->Value_0[c - BOARD_START]
                    } else {
                        Square::Boundary
                    },
                zobrist_key ^ board_key(h, board) == k0,
                h == *zobrist_hasher,
                wking == Square::Full(Piece { color: PieceColor::White, kind: PieceKind::King }),
                bking == Square::Full(Piece { color: PieceColor::Black, kind: PieceKind::King }),
                is_last_before(board, wking, white_king_location, BOARD_START + r),
                is_last_before(board, bking, black_king_location, BOARD_START + r),
            decreases 8 - r,
        {
            let ghost bb = board;
            let ghost wl = white_king_location;
            let ghost bl = black_king_location;
            let res = parse_row(
                &mut board,
                r + BOARD_START,
                &rows[r],
                &mut zobrist_key,
                zobrist_hasher,
                &mut white_king_location,
                &mut black_king_location,
            );
            match res {
                Parsed::Value(()) => {},
                Parsed::Refused(e) => {
                    proof {
                        lemma_rows_outcome_stuck(rows_s, (r + 1) as nat, 8);
                    }
                    return Parsed::Refused(e);
                },
                Parsed::Unreadable => {
                    proof {
                        lemma_rows_outcome_stuck(rows_s, (r + 1) as nat, 8);
                    }
                    return Parsed::Unreadable;
                },
            }
            proof {
                let cells = row_result(rows_s[r as int])->Value_0;
                assert forall|c: int| BOARD_START <= c < BOARD_END implies #[trigger] board[r + BOARD_START][c]
                    == cells[c - BOARD_START] by {}
                lemma_last_before_step(bb, board, wking, wl, white_king_location, r + BOARD_START, cells);
                lemma_last_before_step(bb, board, bking, bl, black_king_location, r + BOARD_START, cells);
                assert(rows_outcome(rows_s, (r + 1) as nat) == Parsed::Value(()));
            }
            r = r + 1;
        }
        proof {
            lemma_xor_unshift(zobrist_key, board_key(h, board), k0);
        }
        let ghost key_rows = zobrist_key;
        assert(fields@[3]@ == f[3] && fields@[2]@ == f[2]);
        let mut pawn_double_move: Option<Point> = None;
        if !is_two_bytes(&fields[3]) {
            if !(fields[3].len() == 1 && fields[3][0] == '-') {
                assert(seq!['-'].len() == 1 && seq!['-'][0] == '-');
                return Parsed::Refused(ParseError::InvalidEnPassant);
            }
            assert(f[3] =~= seq!['-']);
        } else {
            match point_parse_status(&fields[3]) {
                Parsed::Value(p) => {
                    pawn_double_move = Some(p);
                    zobrist_key = zobrist_key ^ zobrist_hasher.get_val_for_en_passant(p.1);
                },
                Parsed::Refused(_) => {},
                Parsed::Unreadable => {
                    return Parsed::Unreadable;
                },
            }
        }
        proof {
            if pawn_double_move is None {
                lemma_xor_zero(key_rows);
            }
        }
        assert(zobrist_key == key_rows ^ en_passant_part(h, pawn_double_move));
        let white_king_side_castle = contains_char(&fields[2], 'K');
        let white_queen_side_castle = contains_char(&fields[2], 'Q');
        let black_king_side_castle = contains_char(&fields[2], 'k');
        let black_queen_side_castle = contains_char(&fields[2], 'q');
        let wk_val = if white_king_side_castle {
            zobrist_hasher.get_val_for_castling(CastlingType::WhiteKingSide)
        } else {
            0
        };
        let wq_val = if white_queen_side_castle {
            zobrist_hasher.get_val_for_castling(CastlingType::WhiteQueenSide)
        } else {
            0
        };
        let bk_val = if black_king_side_castle {
            zobrist_hasher.get_val_for_castling(CastlingType::BlackKingSide)
        } else {
            0
        };
        let bq_val = if black_queen_side_castle {
            zobrist_hasher.get_val_for_castling(CastlingType::BlackQueenSide)
        } else {
            0
        };
        let ghost e_val = en_passant_part(h, pawn_double_move);
        let final_key = (((zobrist_key ^ wk_val) ^ wq_val) ^ bk_val) ^ bq_val;
        let state = BoardState {
            board,
            to_move,
            pawn_double_move,
            white_king_location,
            black_king_location,
            white_king_side_castle,
            white_queen_side_castle,
            black_king_side_castle,
            black_queen_side_castle,
            order_heuristic: i32::MIN,
            last_move: None,
            pawn_promotion: None,
            zobrist_key: final_key,
        };
        proof {
            lemma_fen_key_order(k0, board_key(h, board), e_val, wk_val, wq_val, bk_val, bq_val);
            assert(k0 == side_key(h, to_move));
            assert(castling_key(h, state) == ((wk_val ^ wq_val) ^ bk_val) ^ bq_val);
        }
        Parsed::Value(state)
    }

    /// Reads a FEN string: the position it describes, keyed with the seeded keys; or why it
    /// was refused; or that it cannot be read.
    pub fn parse_fen(fen: &str) -> (r: Parsed<BoardState>)
        ensures
            match fen_check(fen@) {
                Parsed::Value(_) => r matches Parsed::Value(b) && is_fen_position(fen@, b) && forall|
                    h: ZobristHasher,
                | h.is_seeded() ==> key_is_current(h, b),
                Parsed::Refused(e) => r == Parsed::<BoardState>::Refused(e),
                Parsed::Unreadable => r == Parsed::<BoardState>::Unreadable,
            },
    {
        let zobrist_hasher = ZobristHasher::create_zobrist_hasher();
        let r = Self::from_fen_with(fen, &zobrist_hasher);
        proof {
            if let Parsed::Value(b) = r {
                assert forall|h: ZobristHasher| h.is_seeded() implies key_is_current(h, b) by {
                    lemma_seeded_unique(h, zobrist_hasher);
                }
            }
        }
        r
    }

    // Parse the standard fen string notation (en.wikipedia.org/wiki/Forsyth–Edwards_Notation) and return a board state
    pub fn from_fen(fen: &str) -> (r: Result<BoardState, &'static str>)
        requires
            fen_check(fen@) != Parsed::<()>::Unreadable,
        ensures
            match fen_check(fen@) {
                Parsed::Value(_) => r matches Ok(b) && is_fen_position(fen@, b) && forall|
                    h: ZobristHasher,
                | h.is_seeded() ==> key_is_current(h, b),
                Parsed::Refused(e) => r matches Err(m) && m@ == e.text(),
                Parsed::Unreadable => false,
            },
    {
        match Self::parse_fen(fen) {
            Parsed::Value(b) => Ok(b),
            Parsed::Refused(e) => Err(e.message()),
            Parsed::Unreadable => {
                proof {
                    assert(false);
                }
                Err(ParseError::InvalidFen.message())
            },
        }
    }
}

/// A row of piece letters reads as one square per letter, as long as it fits the board.
proof fn lemma_piece_prefix(row: Seq<char>, k: int)
    requires
        0 <= k <= row.len() <= 8,
        forall|i: int| 0 <= i < row.len() ==> #[trigger] fen_piece(row[i]) is Some && !is_digit(row[i]),
    ensures
        row_parse(row.take(k)) is Value,
        row_parse(row.take(k))->Value_0.len() == k,
    decreases k,
{
    if k > 0 {
        lemma_piece_prefix(row, k - 1);
        assert(row.take(k).drop_last() =~= row.take(k - 1));
        assert(row.take(k).last() == row[k - 1]);
        assert(fen_piece(row[k - 1]) is Some && !is_digit(row[k - 1]));
    } else {
        assert(row.take(0) =~= Seq::<char>::empty());
    }
}

/// A row of eight piece letters is accepted.
proof fn lemma_piece_row(row: Seq<char>)
    requires
        row.len() == 8,
        forall|i: int| 0 <= i < 8 ==> #[trigger] fen_piece(row[i]) is Some && !is_digit(row[i]),
    ensures
        row_result(row) is Value,
{
    lemma_piece_prefix(row, 8);
    assert(row.take(8) =~= row);
}

/// The FEN string of the starting position is accepted.
#[verifier::spinoff_prover]
#[verifier::rlimit(80)]
pub proof fn lemma_default_fen_accepted()
    ensures
        fen_check(DEFAULT_FEN_STRING@) == Parsed::<()>::Value(()),
{
    reveal_strlit("rnbqkbnr/pppppppp/8/8/8/8/PPPPPPPP/RNBQKBNR w KQkq - 0 1");
    let full = DEFAULT_FEN_STRING@;
    let r1 = seq!['r', 'n', 'b', 'q', 'k', 'b', 'n', 'r'];
    let r2 = seq!['p', 'p', 'p', 'p', 'p', 'p', 'p', 'p'];
    let e = seq!['8'];
    let r7 = seq!['P', 'P', 'P', 'P', 'P', 'P', 'P', 'P'];
    let r8 = seq!['R', 'N', 'B', 'Q', 'K', 'B', 'N', 'R'];
    let sl = seq!['/'];
    let sp = seq![' '];
    let rows5 = e + sl + r7 + sl + r8;
    let rows4 = e + sl + rows5;
    let rows3 = e + sl + rows4;
    let rows2 = e + sl + rows3;
    let rows1 = r2 + sl + rows2;
    let board_part = r1 + sl + rows1;
    let w = seq!['w'];
    let castle = seq!['K', 'Q', 'k', 'q'];
    let dash = seq!['-'];
    let zero = seq!['0'];
    let one = seq!['1'];
    let f4 = zero + sp + one;
    let f3 = dash + sp + f4;
    let f2 = castle + sp + f3;
    let f1 = w + sp + f2;
    assert(full =~= board_part + sp + f1);
    assert(without_newline(full) == full);
    reveal_with_fuel(occurs, 9);
    lemma_occurs_concat(r7 + sl, r8, ' ');
    lemma_occurs_concat(r7, sl, ' ');
    lemma_occurs_concat(e + sl, r7 + sl + r8, ' ');
    lemma_occurs_concat(e, sl, ' ');
    lemma_occurs_concat(e + sl, rows5, ' ');
    lemma_occurs_concat(e + sl, rows4, ' ');
    lemma_occurs_concat(e + sl, rows3, ' ');
    lemma_occurs_concat(r2 + sl, rows2, ' ');
    lemma_occurs_concat(r2, sl, ' ');
    lemma_occurs_concat(r1 + sl, rows1, ' ');
    lemma_occurs_concat(r1, sl, ' ');
    assert(e + sl + rows5 =~= (e + sl) + rows5);
    assert(rows5 =~= (e + sl) + (r7 + sl + r8));
    assert(rows4 =~= (e + sl) + rows5);
    assert(rows3 =~= (e + sl) + rows4);
    assert(rows2 =~= (e + sl) + rows3);
    assert(rows1 =~= (r2 + sl) + rows2);
    assert(board_part =~= (r1 + sl) + rows1);
    assert(!occurs(board_part, ' '));
    lemma_split_concat(board_part, f1, ' ');
    lemma_split_concat(w, f2, ' ');
    lemma_split_concat(castle, f3, ' ');
    lemma_split_concat(dash, f4, ' ');
    lemma_split_concat(zero, one, ' ');
    lemma_split_no_sep(one, ' ');
    let f = fen_fields(full);
    assert(f =~= seq![board_part, w, castle, dash, zero, one]);
    assert(is_u8_literal(zero)) by {
        assert(unsigned_digits(zero) =~= zero);
        reveal_with_fuel(decimal_value, 2);
        assert(zero.drop_last() =~= Seq::<char>::empty());
    }
    assert(is_u8_literal(one)) by {
        assert(unsigned_digits(one) =~= one);
        reveal_with_fuel(decimal_value, 2);
        assert(one.drop_last() =~= Seq::<char>::empty());
    }
    lemma_split_concat(r1, rows1, '/');
    lemma_split_concat(r2, rows2, '/');
    lemma_split_concat(e, rows3, '/');
    lemma_split_concat(e, rows4, '/');
    lemma_split_concat(e, rows5, '/');
    lemma_split_concat(e, r7 + sl + r8, '/');
    lemma_split_concat(r7, r8, '/');
    lemma_split_no_sep(r8, '/');
    let rows = fen_rows(full);
    assert(rows =~= seq![r1, r2, e, e, e, e, r7, r8]);
    lemma_piece_row(r1);
    lemma_piece_row(r2);
    lemma_piece_row(r7);
    lemma_piece_row(r8);
    assert(row_result(e) is Value) by {
        reveal_with_fuel(row_parse, 2);
        assert(e.drop_last() =~= Seq::<char>::empty());
    }
    reveal_with_fuel(rows_outcome, 9);
    assert(rows_outcome(rows, 8) == Parsed::Value(()));
    assert(utf8_len(dash) == 1) by {
        reveal_with_fuel(utf8_len, 2);
        assert(dash.drop_last() =~= Seq::<char>::empty());
    }
}

/// Writing a square of the board in algebraic notation and reading it back gives the square.
pub proof fn lemma_algebraic_round_trip(p: Point)
    requires
        on_board(p),
    ensures
        point_parse(algebraic(p)) == Parsed::Value(p),
{
    let a = algebraic(p);
    reveal_with_fuel(utf8_len, 3);
    assert(a.drop_last().drop_last() =~= Seq::<char>::empty());
    assert(utf8_len(a) == 2);
}

} // verus!
