use crate::board::{
    CastlingType, with_square, in_array, on_board, BoardState, Piece, PieceColor, PieceKind, Point, Square, BOARD_END,
    BOARD_START,
};
use crate::evaluation::get_evaluation;
use vstd::set::fold::{is_fun_commutative, lemma_finite_set_induct, lemma_fold_empty, lemma_fold_insert};
use vstd::prelude::*;

verus! {

#[derive(Copy, Clone, PartialEq, Eq, Debug, Structural)]
pub enum MoveGenerationMode {
    AllMoves,
    CapturesOnly,
}

/// The content of cell (`r`, `c`) of a position's padded board.
pub open spec fn cell(b: BoardState, r: int, c: int) -> Square {
    b.board[r][c]
}

/// Every cell outside the 8x8 playing area is a boundary cell.
pub open spec fn frame_ok(b: BoardState) -> bool {
    forall|r: int, c: int|
        0 <= r < 12 && 0 <= c < 12 && !(BOARD_START <= r < BOARD_END && BOARD_START <= c
            < BOARD_END) ==> #[trigger] cell(b, r, c) == Square::Boundary
}

/// `k` steps of size `d` (which is -1, 0 or 1).
pub open spec fn off(k: int, d: int) -> int {
    if d > 0 {
        k
    } else if d < 0 {
        -k
    } else {
        0
    }
}

/// Every cell strictly between (`r`, `c`) and the `k`-th cell in direction (`dr`, `dc`) is empty.
pub open spec fn clear_between(b: BoardState, r: int, c: int, dr: int, dc: int, k: int) -> bool {
    forall|j: int| 1 <= j < k ==> #[trigger] cell(b, r + off(j, dr), c + off(j, dc)) == Square::Empty
}

/// The first occupied cell in direction (`dr`, `dc`) from (`r`, `c`) holds `p1` or `p2`.
pub open spec fn ray_hits(
    b: BoardState,
    r: int,
    c: int,
    dr: int,
    dc: int,
    p1: Piece,
    p2: Piece,
) -> bool {
    exists|k: int|
        k >= 1 && clear_between(b, r, c, dr, dc, k) && (#[trigger] cell(
            b,
            r + off(k, dr),
            c + off(k, dc),
        ) == Square::Full(p1) || cell(b, r + off(k, dr), c + off(k, dc)) == Square::Full(p2))
}

/// The cell at offset (`dr`, `dc`) from (`r`, `c`) holds `p`.
pub open spec fn holds_at(b: BoardState, r: int, c: int, dr: int, dc: int, p: Piece) -> bool {
    cell(b, r + dr, c + dc) == Square::Full(p)
}

/// A knight of `p`'s kind on one of the eight knight offsets from (`r`, `c`).
pub open spec fn knight_attack(b: BoardState, r: int, c: int, p: Piece) -> bool {
    ||| holds_at(b, r, c, 1, 2, p)
    ||| holds_at(b, r, c, 1, -2, p)
    ||| holds_at(b, r, c, 2, 1, p)
    ||| holds_at(b, r, c, 2, -1, p)
    ||| holds_at(b, r, c, -1, 2, p)
    ||| holds_at(b, r, c, -1, -2, p)
    ||| holds_at(b, r, c, -2, -1, p)
    ||| holds_at(b, r, c, -2, 1, p)
}

/// |x| <= 1
pub open spec fn within_one(x: int) -> bool {
    -1 <= x <= 1
}

/// Whether a king of `color` standing on `sq` would be attacked: by a rook or queen along a
/// row or column, a bishop or queen along a diagonal, a knight, a pawn, or (judged from the
/// kings' recorded locations) by the other king.
pub open spec fn attacked(b: BoardState, color: PieceColor, sq: Point) -> bool {
    let a = color.spec_opposite();
    let (r, c) = (sq.0 as int, sq.1 as int);
    let rook = Piece { color: a, kind: PieceKind::Rook };
    let bishop = Piece { color: a, kind: PieceKind::Bishop };
    let queen = Piece { color: a, kind: PieceKind::Queen };
    let pawn = Piece { color: a, kind: PieceKind::Pawn };
    let pawn_row = if color == PieceColor::White { r - 1 } else { r + 1 };
    ||| ray_hits(b, r, c, 1, 0, rook, queen)
    ||| ray_hits(b, r, c, -1, 0, rook, queen)
    ||| ray_hits(b, r, c, 0, 1, rook, queen)
    ||| ray_hits(b, r, c, 0, -1, rook, queen)
    ||| ray_hits(b, r, c, 1, -1, bishop, queen)
    ||| ray_hits(b, r, c, 1, 1, bishop, queen)
    ||| ray_hits(b, r, c, -1, 1, bishop, queen)
    ||| ray_hits(b, r, c, -1, -1, bishop, queen)
    ||| knight_attack(b, r, c, Piece { color: a, kind: PieceKind::Knight })
    ||| cell(b, pawn_row, c - 1) == Square::Full(pawn)
    ||| cell(b, pawn_row, c + 1) == Square::Full(pawn)
    ||| (within_one(b.black_king_location.0 - b.white_king_location.0) && within_one(
        b.black_king_location.1 - b.white_king_location.1,
    ))
}

/// Two boards that differ at most in one cell, which then holds a piece of `color` on both.
pub open spec fn same_but_own_piece(b1: BoardState, b2: BoardState, color: PieceColor, r0: int, c0: int) -> bool {
    &&& forall|r: int, c: int|
        0 <= r < 12 && 0 <= c < 12 && (r != r0 || c != c0) ==> #[trigger] cell(b1, r, c) == cell(b2, r, c)
    &&& cell(b1, r0, c0) == cell(b2, r0, c0) || {
        &&& cell(b1, r0, c0) is Full && cell(b1, r0, c0)->0.color == color
        &&& cell(b2, r0, c0) is Full && cell(b2, r0, c0)->0.color == color
    }
}

/// A ray from the playing area that reaches a piece stays on the playing area up to it.
proof fn lemma_ray_in_board(b: BoardState, r: int, c: int, dr: int, dc: int, k: int)
    requires
        frame_ok(b),
        2 <= r < 10,
        2 <= c < 10,
        -1 <= dr <= 1,
        -1 <= dc <= 1,
        dr != 0 || dc != 0,
        k >= 1,
        clear_between(b, r, c, dr, dc, k),
        cell(b, r + off(k, dr), c + off(k, dc)) is Full,
    ensures
        forall|j: int| 1 <= j <= k ==> 2 <= #[trigger] (r + off(j, dr)) < 10 && 2 <= c + off(j, dc) < 10,
{
    let er = if dr > 0 { 10 - r } else if dr < 0 { r - 1 } else { 100 };
    let ec = if dc > 0 { 10 - c } else if dc < 0 { c - 1 } else { 100 };
    let m = if er < ec { er } else { ec };
    let mr = r + off(m, dr);
    let mc = c + off(m, dc);
    assert(0 <= mr < 12 && 0 <= mc < 12);
    assert(!(BOARD_START <= mr < BOARD_END && BOARD_START <= mc < BOARD_END));
    assert(cell(b, mr, mc) == Square::Boundary);
    if k > m {
        assert(cell(b, r + off(m, dr), c + off(m, dc)) == Square::Empty);
    }
    assert(k < m);
}

/// A ray that hits a piece of the other color hits it on both boards.
proof fn lemma_ray_hits_same(
    b1: BoardState,
    b2: BoardState,
    color: PieceColor,
    r0: int,
    c0: int,
    r: int,
    c: int,
    dr: int,
    dc: int,
    p1: Piece,
    p2: Piece,
)
    requires
        same_but_own_piece(b1, b2, color, r0, c0),
        frame_ok(b1),
        2 <= r < 10,
        2 <= c < 10,
        -1 <= dr <= 1,
        -1 <= dc <= 1,
        dr != 0 || dc != 0,
        p1.color != color,
        p2.color != color,
        ray_hits(b1, r, c, dr, dc, p1, p2),
    ensures
        ray_hits(b2, r, c, dr, dc, p1, p2),
{
    let k = choose|k: int|
        k >= 1 && clear_between(b1, r, c, dr, dc, k) && (#[trigger] cell(
            b1,
            r + off(k, dr),
            c + off(k, dc),
        ) == Square::Full(p1) || cell(b1, r + off(k, dr), c + off(k, dc)) == Square::Full(p2));
    lemma_ray_in_board(b1, r, c, dr, dc, k);
    assert(2 <= r + off(k, dr) < 10);
    assert forall|j: int| 1 <= j < k implies #[trigger] cell(b2, r + off(j, dr), c + off(j, dc))
        == Square::Empty by {
        assert(2 <= r + off(j, dr) < 10);
        assert(cell(b1, r + off(j, dr), c + off(j, dc)) == Square::Empty);
    }
    assert(cell(b2, r + off(k, dr), c + off(k, dc)) == cell(b1, r + off(k, dr), c + off(k, dc)));
}

/// Whether a square is attacked does not change when a piece of the defending color is
/// replaced by another piece of that color.
pub proof fn lemma_attacked_same_occupancy(
    b1: BoardState,
    b2: BoardState,
    color: PieceColor,
    r0: int,
    c0: int,
    sq: Point,
)
    requires
        same_but_own_piece(b1, b2, color, r0, c0),
        frame_ok(b1),
        frame_ok(b2),
        on_board(sq),
        b1.white_king_location == b2.white_king_location,
        b1.black_king_location == b2.black_king_location,
    ensures
        attacked(b1, color, sq) == attacked(b2, color, sq),
{
    let a = color.spec_opposite();
    let (r, c) = (sq.0 as int, sq.1 as int);
    let rook = Piece { color: a, kind: PieceKind::Rook };
    let bishop = Piece { color: a, kind: PieceKind::Bishop };
    let queen = Piece { color: a, kind: PieceKind::Queen };
    assert(same_but_own_piece(b2, b1, color, r0, c0));
    let dirs = seq![(1int, 0int), (-1int, 0int), (0int, 1int), (0int, -1int)];
    let diags = seq![(1int, -1int), (1int, 1int), (-1int, 1int), (-1int, -1int)];
    assert forall|i: int| 0 <= i < 4 implies (ray_hits(b1, r, c, #[trigger] dirs[i].0, dirs[i].1, rook, queen)
        == ray_hits(b2, r, c, dirs[i].0, dirs[i].1, rook, queen)) by {
        if ray_hits(b1, r, c, dirs[i].0, dirs[i].1, rook, queen) {
            lemma_ray_hits_same(b1, b2, color, r0, c0, r, c, dirs[i].0, dirs[i].1, rook, queen);
        }
        if ray_hits(b2, r, c, dirs[i].0, dirs[i].1, rook, queen) {
            lemma_ray_hits_same(b2, b1, color, r0, c0, r, c, dirs[i].0, dirs[i].1, rook, queen);
        }
    }
    assert forall|i: int| 0 <= i < 4 implies (ray_hits(b1, r, c, #[trigger] diags[i].0, diags[i].1, bishop, queen)
        == ray_hits(b2, r, c, diags[i].0, diags[i].1, bishop, queen)) by {
        if ray_hits(b1, r, c, diags[i].0, diags[i].1, bishop, queen) {
            lemma_ray_hits_same(b1, b2, color, r0, c0, r, c, diags[i].0, diags[i].1, bishop, queen);
        }
        if ray_hits(b2, r, c, diags[i].0, diags[i].1, bishop, queen) {
            lemma_ray_hits_same(b2, b1, color, r0, c0, r, c, diags[i].0, diags[i].1, bishop, queen);
        }
    }
    assert(dirs[0].0 == 1 && dirs[0].1 == 0 && dirs[1].0 == -1 && dirs[1].1 == 0);
    assert(dirs[2].0 == 0 && dirs[2].1 == 1 && dirs[3].0 == 0 && dirs[3].1 == -1);
    assert(diags[0].0 == 1 && diags[0].1 == -1 && diags[1].0 == 1 && diags[1].1 == 1);
    assert(diags[2].0 == -1 && diags[2].1 == 1 && diags[3].0 == -1 && diags[3].1 == -1);
    let pawn_row = if color == PieceColor::White { r - 1 } else { r + 1 };
    assert(cell(b1, pawn_row, c - 1) == Square::Full(Piece { color: a, kind: PieceKind::Pawn })
        <==> cell(b2, pawn_row, c - 1) == Square::Full(Piece { color: a, kind: PieceKind::Pawn }));
    assert(cell(b1, pawn_row, c + 1) == Square::Full(Piece { color: a, kind: PieceKind::Pawn })
        <==> cell(b2, pawn_row, c + 1) == Square::Full(Piece { color: a, kind: PieceKind::Pawn }));
    let n = Piece { color: a, kind: PieceKind::Knight };
    assert(knight_attack(b1, r, c, n) == knight_attack(b2, r, c, n)) by {
        assert(cell(b1, r + 1, c + 2) == Square::Full(n) <==> cell(b2, r + 1, c + 2) == Square::Full(n));
        assert(cell(b1, r + 1, c - 2) == Square::Full(n) <==> cell(b2, r + 1, c - 2) == Square::Full(n));
        assert(cell(b1, r + 2, c + 1) == Square::Full(n) <==> cell(b2, r + 2, c + 1) == Square::Full(n));
        assert(cell(b1, r + 2, c - 1) == Square::Full(n) <==> cell(b2, r + 2, c - 1) == Square::Full(n));
        assert(cell(b1, r - 1, c + 2) == Square::Full(n) <==> cell(b2, r - 1, c + 2) == Square::Full(n));
        assert(cell(b1, r - 1, c - 2) == Square::Full(n) <==> cell(b2, r - 1, c - 2) == Square::Full(n));
        assert(cell(b1, r - 2, c - 1) == Square::Full(n) <==> cell(b2, r - 2, c - 1) == Square::Full(n));
        assert(cell(b1, r - 2, c + 1) == Square::Full(n) <==> cell(b2, r - 2, c + 1) == Square::Full(n));
    }
}

/// The location recorded for the king of `color`.
pub open spec fn king_location(b: BoardState, color: PieceColor) -> Point {
    if color == PieceColor::White {
        b.white_king_location
    } else {
        b.black_king_location
    }
}

/// Whether `color` is in check.
pub open spec fn in_check(b: BoardState, color: PieceColor) -> bool {
    attacked(b, color, king_location(b, color))
}

/// The kings' recorded locations lie inside the padded array.
pub open spec fn kings_in_array(b: BoardState) -> bool {
    in_array(b.white_king_location) && in_array(b.black_king_location)
}

/*
    Determine if a color is currently in check
*/
pub fn is_check(board: &BoardState, color: PieceColor) -> (r: bool)
    requires
        frame_ok(*board),
        on_board(king_location(*board, color)),
        kings_in_array(*board),
    ensures
        r == in_check(*board, color),
{
    match color {
        PieceColor::White => is_check_cords(board, PieceColor::White, board.white_king_location),
        PieceColor::Black => is_check_cords(board, PieceColor::Black, board.black_king_location),
    }
}

/// Whether the first occupied cell from `sq` in direction (`dr`, `dc`) holds `p1` or `p2`.
fn ray_attack(board: &BoardState, sq: Point, dr: i8, dc: i8, p1: Piece, p2: Piece) -> (r: bool)
    requires
        frame_ok(*board),
        on_board(sq),
        -1 <= dr <= 1,
        -1 <= dc <= 1,
        dr != 0 || dc != 0,
    ensures
        r == ray_hits(*board, sq.0 as int, sq.1 as int, dr as int, dc as int, p1, p2),
{
    let ghost (r0, c0) = (sq.0 as int, sq.1 as int);
    let mut row: i8 = sq.0 as i8 + dr;
    let mut col: i8 = sq.1 as i8 + dc;
    let ghost mut k: int = 1;
    let mut square = board.board[row as usize][col as usize];
    while square.is_empty()
        invariant
            frame_ok(*board),
            on_board(sq),
            -1 <= dr <= 1,
            -1 <= dc <= 1,
            dr != 0 || dc != 0,
            1 <= k <= 8,
            r0 == sq.0,
            c0 == sq.1,
            row == r0 + off(k, dr as int),
            col == c0 + off(k, dc as int),
            0 <= row < 12,
            0 <= col < 12,
            square == cell(*board, row as int, col as int),
            clear_between(*board, r0, c0, dr as int, dc as int, k),
        decreases 8 - k,
    {
        assert(BOARD_START <= row < BOARD_END && BOARD_START <= col < BOARD_END);
        assert(k <= 7) by {
            assert(2 <= r0 < 10 && 2 <= c0 < 10);
            assert(2 <= row < 10 && 2 <= col < 10);
            if dr > 0 {
                assert(off(k, dr as int) == k);
            } else if dr < 0 {
                assert(off(k, dr as int) == -k);
            } else if dc > 0 {
                assert(off(k, dc as int) == k);
            } else {
                assert(off(k, dc as int) == -k);
            }
        }
        proof {
            assert forall|j: int| 1 <= j < k + 1 implies #[trigger] cell(
                *board,
                r0 + off(j, dr as int),
                c0 + off(j, dc as int),
            ) == Square::Empty by {
                if j < k {
                    assert(cell(*board, r0 + off(j, dr as int), c0 + off(j, dc as int))
                        == Square::Empty);
                }
            }
        }
        row = row + dr;
        col = col + dc;
        proof {
            k = k + 1;
        }
        square = board.board[row as usize][col as usize];
    }
    let hit = square.holds(p1) || square.holds(p2);
    proof {
        if hit {
            assert(cell(*board, r0 + off(k, dr as int), c0 + off(k, dc as int)) == square);
        } else {
            assert forall|k2: int|
                k2 >= 1 && clear_between(*board, r0, c0, dr as int, dc as int, k2) implies !(
            #[trigger] cell(*board, r0 + off(k2, dr as int), c0 + off(k2, dc as int))
                == Square::Full(p1) || cell(
                *board,
                r0 + off(k2, dr as int),
                c0 + off(k2, dc as int),
            ) == Square::Full(p2)) by {
                if k2 < k {
                    assert(cell(*board, r0 + off(k2, dr as int), c0 + off(k2, dc as int))
                        == Square::Empty);
                } else if k2 > k {
                    assert(cell(*board, r0 + off(k, dr as int), c0 + off(k, dc as int))
                        == Square::Empty);
                }
            }
        }
    }
    hit
}

/// Whether the cell at offset (`dr`, `dc`) from `sq` holds `p`.
fn holds_at_offset(board: &BoardState, sq: Point, dr: i8, dc: i8, p: Piece) -> (r: bool)
    requires
        on_board(sq),
        -2 <= dr <= 2,
        -2 <= dc <= 2,
    ensures
        r == holds_at(*board, sq.0 as int, sq.1 as int, dr as int, dc as int, p),
{
    let row = (sq.0 as i8 + dr) as usize;
    let col = (sq.1 as i8 + dc) as usize;
    board.board[row][col].holds(p)
}

/// |x| for the small differences between king coordinates.
fn abs_i8(x: i8) -> (r: i8)
    requires
        x > i8::MIN,
    ensures
        r as int == if x < 0 { -x } else { x as int },
{
    if x < 0 {
        -x
    } else {
        x
    }
}

/*
    Determine if the given position is check

    Rather than checking each piece to see if it attacks the king
    this function checks all possible attack squares to the king and
    sees if the piece is there, thus it is important the king_location is set
*/
pub fn is_check_cords(board: &BoardState, color: PieceColor, square_cords: Point) -> (r: bool)
    requires
        frame_ok(*board),
        on_board(square_cords),
        kings_in_array(*board),
    ensures
        r == attacked(*board, color, square_cords),
{
    let attacking_color = color.opposite();
    let attacking_rook = Piece::rook(attacking_color);
    let attacking_queen = Piece::queen(attacking_color);
    let attacking_bishop = Piece::bishop(attacking_color);
    let attacking_knight = Piece::knight(attacking_color);
    let attacking_pawn = Piece::pawn(attacking_color);

    // Check from rook or queen
    if ray_attack(board, square_cords, 1, 0, attacking_rook, attacking_queen)
        || ray_attack(board, square_cords, -1, 0, attacking_rook, attacking_queen)
        || ray_attack(board, square_cords, 0, 1, attacking_rook, attacking_queen)
        || ray_attack(board, square_cords, 0, -1, attacking_rook, attacking_queen)
    {
        return true;
    }
    // Check from bishop or queen
    if ray_attack(board, square_cords, 1, -1, attacking_bishop, attacking_queen)
        || ray_attack(board, square_cords, 1, 1, attacking_bishop, attacking_queen)
        || ray_attack(board, square_cords, -1, 1, attacking_bishop, attacking_queen)
        || ray_attack(board, square_cords, -1, -1, attacking_bishop, attacking_queen)
    {
        return true;
    }
    // Check from knight
    if holds_at_offset(board, square_cords, 1, 2, attacking_knight)
        || holds_at_offset(board, square_cords, 1, -2, attacking_knight)
        || holds_at_offset(board, square_cords, 2, 1, attacking_knight)
        || holds_at_offset(board, square_cords, 2, -1, attacking_knight)
        || holds_at_offset(board, square_cords, -1, 2, attacking_knight)
        || holds_at_offset(board, square_cords, -1, -2, attacking_knight)
        || holds_at_offset(board, square_cords, -2, -1, attacking_knight)
        || holds_at_offset(board, square_cords, -2, 1, attacking_knight)
    {
        return true;
    }
    // Check from pawn
    let pawn_row = match color {
        PieceColor::White => square_cords.0 - 1,
        PieceColor::Black => square_cords.0 + 1,
    };
    if board.board[pawn_row][square_cords.1 - 1].holds(attacking_pawn)
        || board.board[pawn_row][square_cords.1 + 1].holds(attacking_pawn)
    {
        return true;
    }
    // Check from king
    // By using the king location here we can just check if they are within one square of each other
    abs_i8(board.black_king_location.0 as i8 - board.white_king_location.0 as i8) <= 1
        && abs_i8(board.black_king_location.1 as i8 - board.white_king_location.1 as i8) <= 1
}

// ---------------------------------------------------------------------------------------
// Target squares of single pieces.

/// `new` is `old` with more points appended.
pub open spec fn grows<T>(old: Seq<T>, new: Seq<T>) -> bool {
    old.len() <= new.len() && new.take(old.len() as int) == old
}

/// The points appended to `old` to give `new`.
pub open spec fn appended<T>(old: Seq<T>, new: Seq<T>) -> Seq<T> {
    new.skip(old.len() as int)
}

pub proof fn lemma_grows_trans<T>(a: Seq<T>, b: Seq<T>, c: Seq<T>)
    requires
        grows(a, b),
        grows(b, c),
    ensures
        grows(a, c),
        appended(a, c) == appended(a, b) + appended(b, c),
        forall|p: T|
            #[trigger] appended(a, c).contains(p) <==> appended(a, b).contains(p) || appended(
                b,
                c,
            ).contains(p),
{
    assert(c.take(a.len() as int) =~= a) by {
        assert forall|i: int| 0 <= i < a.len() implies c[i] == a[i] by {
            assert(c.take(b.len() as int)[i] == b[i]);
            assert(b.take(a.len() as int)[i] == a[i]);
        }
    }
    assert(appended(a, c) =~= appended(a, b) + appended(b, c)) by {
        assert forall|i: int| 0 <= i < b.len() - a.len() implies appended(a, c)[i] == appended(
            a,
            b,
        )[i] by {
            assert(c.take(b.len() as int)[a.len() + i] == b[a.len() + i]);
        }
    }
    assert forall|p: T| #[trigger]
        appended(a, c).contains(p) <==> appended(a, b).contains(p) || appended(b, c).contains(
            p,
        ) by {
        let s1 = appended(a, b);
        let s2 = appended(b, c);
        if (s1 + s2).contains(p) {
            let i = choose|i: int| 0 <= i < (s1 + s2).len() && (s1 + s2)[i] == p;
            if i < s1.len() {
                assert(s1[i] == p);
            } else {
                assert(s2[i - s1.len()] == p);
            }
        }
        if s1.contains(p) {
            let i = choose|i: int| 0 <= i < s1.len() && s1[i] == p;
            assert((s1 + s2)[i] == p);
        }
        if s2.contains(p) {
            let i = choose|i: int| 0 <= i < s2.len() && s2[i] == p;
            assert((s1 + s2)[s1.len() + i] == p);
        }
    }
}

pub proof fn lemma_grows_push<T>(a: Seq<T>, b: Seq<T>, x: T)
    requires
        grows(a, b),
    ensures
        grows(a, b.push(x)),
        appended(a, b.push(x)) == appended(a, b).push(x),
        forall|p: T|
            #[trigger] appended(a, b.push(x)).contains(p) <==> appended(a, b).contains(p) || p
                == x,
{
    assert(b.push(x).take(a.len() as int) =~= b.take(a.len() as int));
    assert(appended(a, b.push(x)) =~= appended(a, b).push(x));
    assert forall|p: T| #[trigger]
        appended(a, b.push(x)).contains(p) <==> appended(a, b).contains(p) || p == x by {
        let s = appended(a, b);
        if s.push(x).contains(p) {
            let i = choose|i: int| 0 <= i < s.push(x).len() && s.push(x)[i] == p;
            if i < s.len() {
                assert(s[i] == p);
            }
        }
        if s.contains(p) {
            let i = choose|i: int| 0 <= i < s.len() && s[i] == p;
            assert(s.push(x)[i] == p);
        }
        if p == x {
            assert(s.push(x)[s.len() as int] == x);
        }
    }
}

pub proof fn lemma_grows_refl<T>(a: Seq<T>)
    ensures
        grows(a, a),
        appended(a, a).no_duplicates(),
        forall|p: T| !(#[trigger] appended(a, a).contains(p)),
{
    assert(a.take(a.len() as int) =~= a);
    assert(appended(a, a) =~= Seq::<T>::empty());
}

/// Two runs of distinct points with no point in common make one run of distinct points.
pub proof fn lemma_grows_trans_distinct<T>(a: Seq<T>, b: Seq<T>, c: Seq<T>)
    requires
        grows(a, b),
        grows(b, c),
        appended(a, b).no_duplicates(),
        appended(b, c).no_duplicates(),
        forall|p: T| #[trigger] appended(a, b).contains(p) ==> !appended(b, c).contains(p),
    ensures
        appended(a, c).no_duplicates(),
{
    lemma_grows_trans(a, b, c);
    let s1 = appended(a, b);
    let s2 = appended(b, c);
    assert forall|i: int, j: int| 0 <= i < s1.len() && 0 <= j < s2.len() implies s1[i] != s2[j] by {
        assert(s1.contains(s1[i]));
        assert(s2.contains(s2[j]));
    }
    vstd::seq_lib::lemma_no_dup_in_concat(s1, s2);
}

/// Appending a point not yet appended keeps the appended points distinct.
pub proof fn lemma_grows_push_distinct<T>(a: Seq<T>, b: Seq<T>, x: T)
    requires
        grows(a, b),
        appended(a, b).no_duplicates(),
        !appended(a, b).contains(x),
    ensures
        appended(a, b.push(x)).no_duplicates(),
{
    lemma_grows_push(a, b, x);
    let s = appended(a, b);
    assert forall|i: int, j: int|
        0 <= i < s.push(x).len() && 0 <= j < s.push(x).len() && i != j implies s.push(x)[i]
        != s.push(x)[j] by {
        if i == s.len() {
            assert(s.contains(s[j]));
        } else if j == s.len() {
            assert(s.contains(s[i]));
        }
    }
}

/// A square a piece of `color` may land on: an empty one (when all moves are generated) or
/// one holding an opposing piece.
pub open spec fn landable(s: Square, color: PieceColor, mode: MoveGenerationMode) -> bool {
    (s == Square::Empty && mode == MoveGenerationMode::AllMoves) || (s is Full && s->0.color
        == color.spec_opposite())
}

/// `p` is the square at offset (`dr`, `dc`) from (`r`, `c`) and may be landed on.
pub open spec fn step_target(
    b: BoardState,
    r: int,
    c: int,
    dr: int,
    dc: int,
    color: PieceColor,
    mode: MoveGenerationMode,
    p: Point,
) -> bool {
    p.0 == r + dr && p.1 == c + dc && landable(cell(b, r + dr, c + dc), color, mode)
}

/// `p` lies in direction (`dr`, `dc`) from (`r`, `c`), every square before it is empty, and
/// it may be landed on.
pub open spec fn slide_target(
    b: BoardState,
    r: int,
    c: int,
    dr: int,
    dc: int,
    color: PieceColor,
    mode: MoveGenerationMode,
    p: Point,
) -> bool {
    exists|k: int|
        k >= 1 && clear_between(b, r, c, dr, dc, k) && p.0 == r + off(k, dr) && p.1 == c + off(
            k,
            dc,
        ) && #[trigger] landable(cell(b, r + off(k, dr), c + off(k, dc)), color, mode)
}

pub open spec fn knight_dr(i: int) -> int {
    if i == 0 || i == 1 {
        1
    } else if i == 2 || i == 3 {
        2
    } else if i == 4 || i == 5 {
        -1
    } else {
        -2
    }
}

pub open spec fn knight_dc(i: int) -> int {
    if i == 0 || i == 4 {
        2
    } else if i == 1 || i == 5 {
        -2
    } else if i == 2 || i == 7 {
        1
    } else {
        -1
    }
}

/// `p` is a knight's jump from (`r`, `c`) that may be landed on.
pub open spec fn knight_target(
    b: BoardState,
    r: int,
    c: int,
    color: PieceColor,
    mode: MoveGenerationMode,
    p: Point,
) -> bool {
    exists|i: int|
        0 <= i < 8 && #[trigger] step_target(b, r, c, knight_dr(i), knight_dc(i), color, mode, p)
}

/// `p` is one of the nine cells of the 3x3 block around (`r`, `c`) and may be landed on.
pub open spec fn king_target(
    b: BoardState,
    r: int,
    c: int,
    color: PieceColor,
    mode: MoveGenerationMode,
    p: Point,
) -> bool {
    exists|i: int, j: int|
        0 <= i < 3 && 0 <= j < 3 && #[trigger] step_target(b, r, c, i - 1, j - 1, color, mode, p)
}

/// The squares a pawn of `color` on (`r`, `c`) may move to, en passant left aside: a diagonal
/// step forward onto an opposing piece, and (all moves only) a step forward onto an empty
/// square, followed from its starting row by a second step onto an empty square.
pub open spec fn pawn_target(
    b: BoardState,
    r: int,
    c: int,
    color: PieceColor,
    mode: MoveGenerationMode,
    p: Point,
) -> bool {
    let fwd = if color == PieceColor::White { -1int } else { 1int };
    let start_row = if color == PieceColor::White { 8int } else { 3int };
    let opp = color.spec_opposite();
    let all = mode == MoveGenerationMode::AllMoves;
    ||| (p.0 == r + fwd && p.1 == c - 1 && cell(b, r + fwd, c - 1) is Full && cell(
        b,
        r + fwd,
        c - 1,
    )->0.color == opp)
    ||| (p.0 == r + fwd && p.1 == c + 1 && cell(b, r + fwd, c + 1) is Full && cell(
        b,
        r + fwd,
        c + 1,
    )->0.color == opp)
    ||| (all && p.0 == r + fwd && p.1 == c && cell(b, r + fwd, c) == Square::Empty)
    ||| (all && r == start_row && p.0 == r + 2 * fwd && p.1 == c && cell(b, r + fwd, c)
        == Square::Empty && cell(b, r + 2 * fwd, c) == Square::Empty)
}

/// `p` is reached by sliding along a row or a column.
pub open spec fn rook_target(
    b: BoardState,
    r: int,
    c: int,
    color: PieceColor,
    mode: MoveGenerationMode,
    p: Point,
) -> bool {
    ||| slide_target(b, r, c, 1, 0, color, mode, p)
    ||| slide_target(b, r, c, -1, 0, color, mode, p)
    ||| slide_target(b, r, c, 0, 1, color, mode, p)
    ||| slide_target(b, r, c, 0, -1, color, mode, p)
}

/// `p` is reached by sliding along a diagonal.
pub open spec fn bishop_target(
    b: BoardState,
    r: int,
    c: int,
    color: PieceColor,
    mode: MoveGenerationMode,
    p: Point,
) -> bool {
    ||| slide_target(b, r, c, 1, -1, color, mode, p)
    ||| slide_target(b, r, c, 1, 1, color, mode, p)
    ||| slide_target(b, r, c, -1, 1, color, mode, p)
    ||| slide_target(b, r, c, -1, -1, color, mode, p)
}

/// The squares `piece` on (`r`, `c`) may move to, castling and en passant left aside; the king
/// may still be left in check.
pub open spec fn piece_target(
    b: BoardState,
    piece: Piece,
    r: int,
    c: int,
    mode: MoveGenerationMode,
    p: Point,
) -> bool {
    match piece.kind {
        PieceKind::Pawn => pawn_target(b, r, c, piece.color, mode, p),
        PieceKind::Knight => knight_target(b, r, c, piece.color, mode, p),
        PieceKind::Bishop => bishop_target(b, r, c, piece.color, mode, p),
        PieceKind::Rook => rook_target(b, r, c, piece.color, mode, p),
        PieceKind::Queen => rook_target(b, r, c, piece.color, mode, p) || bishop_target(
            b,
            r,
            c,
            piece.color,
            mode,
            p,
        ),
        PieceKind::King => king_target(b, r, c, piece.color, mode, p),
    }
}

/// The square at offset (`dr`, `dc`), if it may be landed on.
pub open spec fn step_list(
    b: BoardState,
    r: int,
    c: int,
    dr: int,
    dc: int,
    color: PieceColor,
    mode: MoveGenerationMode,
) -> Seq<Point> {
    if landable(cell(b, r + dr, c + dc), color, mode) {
        seq![Point((r + dr) as usize, (c + dc) as usize)]
    } else {
        Seq::empty()
    }
}

/// The first `n` knight jumps, in order, that may be landed on.
pub open spec fn knight_list(b: BoardState, r: int, c: int, color: PieceColor, mode: MoveGenerationMode, n: nat) -> Seq<Point>
    decreases n,
{
    if n == 0 {
        Seq::empty()
    } else {
        knight_list(b, r, c, color, mode, (n - 1) as nat) + step_list(
            b,
            r,
            c,
            knight_dr(n - 1),
            knight_dc(n - 1),
            color,
            mode,
        )
    }
}

/// The king's steps: the first `i` rows of the 3x3 block, then the first `j` cells of the
/// next row, each cell if it may be landed on.
pub open spec fn king_list(
    b: BoardState,
    r: int,
    c: int,
    color: PieceColor,
    mode: MoveGenerationMode,
    i: nat,
    j: nat,
) -> Seq<Point>
    decreases i, j,
{
    if j > 0 {
        king_list(b, r, c, color, mode, i, (j - 1) as nat) + step_list(b, r, c, i - 1, j - 2, color, mode)
    } else if i > 0 {
        king_list(b, r, c, color, mode, (i - 1) as nat, 3)
    } else {
        Seq::empty()
    }
}

/// The squares reached sliding from the `k`-th cell in direction (`dr`, `dc`) on, looking
/// at no more than `fuel` cells: the empty ones (when all moves are generated), then the
/// first occupied one if it holds an opposing piece.
pub open spec fn slide_from(
    b: BoardState,
    r: int,
    c: int,
    dr: int,
    dc: int,
    color: PieceColor,
    mode: MoveGenerationMode,
    k: int,
    fuel: nat,
) -> Seq<Point>
    decreases fuel,
{
    if fuel == 0 {
        Seq::empty()
    } else {
        let p = Point((r + off(k, dr)) as usize, (c + off(k, dc)) as usize);
        let sq = cell(b, r + off(k, dr), c + off(k, dc));
        if sq == Square::Empty {
            (if mode == MoveGenerationMode::AllMoves {
                seq![p]
            } else {
                Seq::empty()
            }) + slide_from(b, r, c, dr, dc, color, mode, k + 1, (fuel - 1) as nat)
        } else if sq is Full && sq->0.color == color.spec_opposite() {
            seq![p]
        } else {
            Seq::empty()
        }
    }
}

/// The squares reached sliding in direction (`dr`, `dc`), nearest first.
pub open spec fn slide_list(
    b: BoardState,
    r: int,
    c: int,
    dr: int,
    dc: int,
    color: PieceColor,
    mode: MoveGenerationMode,
) -> Seq<Point> {
    slide_from(b, r, c, dr, dc, color, mode, 1, 8)
}

/// A rook's squares: down, up, right, then left.
pub open spec fn rook_list(b: BoardState, r: int, c: int, color: PieceColor, mode: MoveGenerationMode) -> Seq<Point> {
    slide_list(b, r, c, 1, 0, color, mode) + slide_list(b, r, c, -1, 0, color, mode) + slide_list(
        b,
        r,
        c,
        0,
        1,
        color,
        mode,
    ) + slide_list(b, r, c, 0, -1, color, mode)
}

/// A bishop's squares, one diagonal after the other.
pub open spec fn bishop_list(b: BoardState, r: int, c: int, color: PieceColor, mode: MoveGenerationMode) -> Seq<Point> {
    slide_list(b, r, c, 1, -1, color, mode) + slide_list(b, r, c, 1, 1, color, mode) + slide_list(
        b,
        r,
        c,
        -1,
        1,
        color,
        mode,
    ) + slide_list(b, r, c, -1, -1, color, mode)
}

/// `p` alone when `cond` holds, else nothing.
pub open spec fn when(cond: bool, p: Point) -> Seq<Point> {
    if cond {
        seq![p]
    } else {
        Seq::empty()
    }
}

/// A pawn's squares, en passant aside: its two captures, then the step forward and the
/// double step.
pub open spec fn pawn_list(b: BoardState, r: int, c: int, color: PieceColor, mode: MoveGenerationMode) -> Seq<Point> {
    let all = mode == MoveGenerationMode::AllMoves;
    if color == PieceColor::White {
        let push = all && cell(b, r - 1, c) == Square::Empty;
        when(
            cell(b, r - 1, c - 1) is Full && cell(b, r - 1, c - 1)->0.color == PieceColor::Black,
            Point((r - 1) as usize, (c - 1) as usize),
        ) + when(
            cell(b, r - 1, c + 1) is Full && cell(b, r - 1, c + 1)->0.color == PieceColor::Black,
            Point((r - 1) as usize, (c + 1) as usize),
        ) + when(push, Point((r - 1) as usize, c as usize)) + when(
            push && r == 8 && cell(b, r - 2, c) == Square::Empty,
            Point((r - 2) as usize, c as usize),
        )
    } else {
        let push = all && cell(b, r + 1, c) == Square::Empty;
        when(
            cell(b, r + 1, c + 1) is Full && cell(b, r + 1, c + 1)->0.color == PieceColor::White,
            Point((r + 1) as usize, (c + 1) as usize),
        ) + when(
            cell(b, r + 1, c - 1) is Full && cell(b, r + 1, c - 1)->0.color == PieceColor::White,
            Point((r + 1) as usize, (c - 1) as usize),
        ) + when(push, Point((r + 1) as usize, c as usize)) + when(
            push && r == 3 && cell(b, r + 2, c) == Square::Empty,
            Point((r + 2) as usize, c as usize),
        )
    }
}

/// The squares `piece` on (`r`, `c`) may move to, in the order they are generated.
pub open spec fn piece_list(b: BoardState, piece: Piece, r: int, c: int, mode: MoveGenerationMode) -> Seq<Point> {
    match piece.kind {
        PieceKind::Pawn => pawn_list(b, r, c, piece.color, mode),
        PieceKind::Knight => knight_list(b, r, c, piece.color, mode, 8),
        PieceKind::Bishop => bishop_list(b, r, c, piece.color, mode),
        PieceKind::Rook => rook_list(b, r, c, piece.color, mode),
        PieceKind::Queen => rook_list(b, r, c, piece.color, mode) + bishop_list(b, r, c, piece.color, mode),
        PieceKind::King => king_list(b, r, c, piece.color, mode, 2, 3),
    }
}

/// Appends the square at offset (`dr`, `dc`) when it may be landed on.
fn step_move(
    piece: Piece,
    row: usize,
    col: usize,
    dr: i8,
    dc: i8,
    board: &BoardState,
    moves: &mut Vec<Point>,
    move_generation_mode: MoveGenerationMode,
)
    requires
        on_board(Point(row, col)),
        -2 <= dr <= 2,
        -2 <= dc <= 2,
    ensures
        grows(old(moves)@, final(moves)@),
        appended(old(moves)@, final(moves)@).no_duplicates(),
        appended(old(moves)@, final(moves)@) == step_list(
            *board,
            row as int,
            col as int,
            dr as int,
            dc as int,
            piece.color,
            move_generation_mode,
        ),
        forall|p: Point|
            #[trigger] appended(old(moves)@, final(moves)@).contains(p) <==> step_target(
                *board,
                row as int,
                col as int,
                dr as int,
                dc as int,
                piece.color,
                move_generation_mode,
                p,
            ),
{
    let ghost m0 = moves@;
    proof {
        lemma_grows_refl(m0);
    }
    let r = (row as i8 + dr) as usize;
    let c = (col as i8 + dc) as usize;
    let square = board.board[r][c];
    if square.is_empty_or_color(piece.color.opposite()) {
        if move_generation_mode == MoveGenerationMode::CapturesOnly {
            if !square.is_empty() {
                moves.push(Point(r, c));
                proof {
                    lemma_grows_push(m0, m0, Point(r, c));
                    lemma_grows_push_distinct(m0, m0, Point(r, c));
                }
            }
        } else {
            moves.push(Point(r, c));
            proof {
                lemma_grows_push(m0, m0, Point(r, c));
                lemma_grows_push_distinct(m0, m0, Point(r, c));
            }
        }
    }
}

fn knight_offset(i: usize) -> (r: (i8, i8))
    requires
        i < 8,
    ensures
        r.0 as int == knight_dr(i as int),
        r.1 as int == knight_dc(i as int),
{
    if i == 0 {
        (1, 2)
    } else if i == 1 {
        (1, -2)
    } else if i == 2 {
        (2, 1)
    } else if i == 3 {
        (2, -1)
    } else if i == 4 {
        (-1, 2)
    } else if i == 5 {
        (-1, -2)
    } else if i == 6 {
        (-2, -1)
    } else {
        (-2, 1)
    }
}

/// Different knight jumps have different offsets.
proof fn lemma_knight_offsets_distinct(i: int, j: int)
    requires
        0 <= i < 8,
        0 <= j < 8,
        i != j,
    ensures
        knight_dr(i) != knight_dr(j) || knight_dc(i) != knight_dc(j),
{
}

/*
    Generate pseudo-legal moves for a knight
*/
pub fn knight_moves(
    piece: Piece,
    row: usize,
    col: usize,
    board: &BoardState,
    moves: &mut Vec<Point>,
    move_generation_mode: MoveGenerationMode,
)
    requires
        on_board(Point(row, col)),
    ensures
        grows(old(moves)@, final(moves)@),
        appended(old(moves)@, final(moves)@).no_duplicates(),
        appended(old(moves)@, final(moves)@) == knight_list(*board, row as int, col as int, piece.color, move_generation_mode, 8),
        forall|p: Point|
            #[trigger] appended(old(moves)@, final(moves)@).contains(p) <==> knight_target(
                *board,
                row as int,
                col as int,
                piece.color,
                move_generation_mode,
                p,
            ),
{
    let ghost m0 = moves@;
    proof {
        lemma_grows_refl(m0);
    }
    for i in 0..8
        invariant
            on_board(Point(row, col)),
            grows(m0, moves@),
            appended(m0, moves@).no_duplicates(),
            appended(m0, moves@) == knight_list(*board, row as int, col as int, piece.color, move_generation_mode, i as nat),
            forall|p: Point|
                #[trigger] appended(m0, moves@).contains(p) <==> exists|j: int|
                    0 <= j < i && #[trigger] step_target(
                        *board,
                        row as int,
                        col as int,
                        knight_dr(j),
                        knight_dc(j),
                        piece.color,
                        move_generation_mode,
                        p,
                    ),
    {
        let (r, c) = knight_offset(i);
        let ghost m1 = moves@;
        step_move(piece, row, col, r, c, board, moves, move_generation_mode);
        proof {
            lemma_grows_trans(m0, m1, moves@);
            assert forall|p: Point| #[trigger] appended(m0, m1).contains(p) implies !appended(
                m1,
                moves@,
            ).contains(p) by {
                if appended(m1, moves@).contains(p) {
                    let j = choose|j: int|
                        0 <= j < i && #[trigger] step_target(
                            *board,
                            row as int,
                            col as int,
                            knight_dr(j),
                            knight_dc(j),
                            piece.color,
                            move_generation_mode,
                            p,
                        );
                    lemma_knight_offsets_distinct(i as int, j);
                }
            }
            lemma_grows_trans_distinct(m0, m1, moves@);
            assert forall|p: Point| #[trigger]
                appended(m0, moves@).contains(p) <==> exists|j: int|
                    0 <= j < i + 1 && #[trigger] step_target(
                        *board,
                        row as int,
                        col as int,
                        knight_dr(j),
                        knight_dc(j),
                        piece.color,
                        move_generation_mode,
                        p,
                    ) by {
                if appended(m1, moves@).contains(p) {
                    assert(step_target(
                        *board,
                        row as int,
                        col as int,
                        knight_dr(i as int),
                        knight_dc(i as int),
                        piece.color,
                        move_generation_mode,
                        p,
                    ));
                }
                if exists|j: int|
                    0 <= j < i + 1 && #[trigger] step_target(
                        *board,
                        row as int,
                        col as int,
                        knight_dr(j),
                        knight_dc(j),
                        piece.color,
                        move_generation_mode,
                        p,
                    ) {
                    let j = choose|j: int|
                        0 <= j < i + 1 && #[trigger] step_target(
                            *board,
                            row as int,
                            col as int,
                            knight_dr(j),
                            knight_dc(j),
                            piece.color,
                            move_generation_mode,
                            p,
                        );
                    if j < i {
                        assert(appended(m0, m1).contains(p));
                    } else {
                        assert(appended(m1, moves@).contains(p));
                    }
                }
            }
        }
    }
}

/*
    Generate pseudo-legal moves for a king
*/
pub fn king_moves(
    piece: Piece,
    row: usize,
    col: usize,
    board: &BoardState,
    moves: &mut Vec<Point>,
    move_generation_mode: MoveGenerationMode,
)
    requires
        on_board(Point(row, col)),
    ensures
        grows(old(moves)@, final(moves)@),
        appended(old(moves)@, final(moves)@).no_duplicates(),
        appended(old(moves)@, final(moves)@) == king_list(*board, row as int, col as int, piece.color, move_generation_mode, 2, 3),
        forall|p: Point|
            #[trigger] appended(old(moves)@, final(moves)@).contains(p) <==> king_target(
                *board,
                row as int,
                col as int,
                piece.color,
                move_generation_mode,
                p,
            ),
{
    let ghost m0 = moves@;
    proof {
        lemma_grows_refl(m0);
    }
    for i in 0..3
        invariant
            on_board(Point(row, col)),
            grows(m0, moves@),
                appended(m0, moves@).no_duplicates(),
                appended(m0, moves@) == king_list(*board, row as int, col as int, piece.color, move_generation_mode, i as nat, 0),
            forall|p: Point|
                #[trigger] appended(m0, moves@).contains(p) <==> exists|a: int, e: int|
                    0 <= a < i && 0 <= e < 3 && #[trigger] step_target(
                        *board,
                        row as int,
                        col as int,
                        a - 1,
                        e - 1,
                        piece.color,
                        move_generation_mode,
                        p,
                    ),
    {
        for j in 0..3
            invariant
                on_board(Point(row, col)),
                0 <= i < 3,
                grows(m0, moves@),
                appended(m0, moves@).no_duplicates(),
                appended(m0, moves@) == king_list(*board, row as int, col as int, piece.color, move_generation_mode, i as nat, j as nat),
                forall|p: Point|
                    #[trigger] appended(m0, moves@).contains(p) <==> exists|a: int, e: int|
                        ((0 <= a < i && 0 <= e < 3) || (a == i && 0 <= e < j)) && #[trigger] step_target(
                            *board,
                            row as int,
                            col as int,
                            a - 1,
                            e - 1,
                            piece.color,
                            move_generation_mode,
                            p,
                        ),
        {
            let ghost m1 = moves@;
            step_move(piece, row, col, i as i8 - 1, j as i8 - 1, board, moves, move_generation_mode);
            proof {
                lemma_grows_trans(m0, m1, moves@);
                assert forall|p: Point| #[trigger] appended(m0, m1).contains(p) implies !appended(
                    m1,
                    moves@,
                ).contains(p) by {
                    if appended(m1, moves@).contains(p) {
                        let (a, e) = choose|a: int, e: int|
                            ((0 <= a < i && 0 <= e < 3) || (a == i && 0 <= e < j)) && #[trigger] step_target(
                                *board,
                                row as int,
                                col as int,
                                a - 1,
                                e - 1,
                                piece.color,
                                move_generation_mode,
                                p,
                            );
                    }
                }
                lemma_grows_trans_distinct(m0, m1, moves@);
                assert forall|p: Point| #[trigger]
                    appended(m0, moves@).contains(p) <==> exists|a: int, e: int|
                        ((0 <= a < i && 0 <= e < 3) || (a == i && 0 <= e < j + 1)) && #[trigger] step_target(
                            *board,
                            row as int,
                            col as int,
                            a - 1,
                            e - 1,
                            piece.color,
                            move_generation_mode,
                            p,
                        ) by {
                    if appended(m1, moves@).contains(p) {
                        assert(step_target(
                            *board,
                            row as int,
                            col as int,
                            i - 1,
                            j - 1,
                            piece.color,
                            move_generation_mode,
                            p,
                        ));
                    }
                    if exists|a: int, e: int|
                        ((0 <= a < i && 0 <= e < 3) || (a == i && 0 <= e < j + 1)) && #[trigger] step_target(
                            *board,
                            row as int,
                            col as int,
                            a - 1,
                            e - 1,
                            piece.color,
                            move_generation_mode,
                            p,
                        ) {
                        let (a, e) = choose|a: int, e: int|
                            ((0 <= a < i && 0 <= e < 3) || (a == i && 0 <= e < j + 1)) && #[trigger] step_target(
                                *board,
                                row as int,
                                col as int,
                                a - 1,
                                e - 1,
                                piece.color,
                                move_generation_mode,
                                p,
                            );
                        if a == i && e == j {
                            assert(appended(m1, moves@).contains(p));
                        } else {
                            assert(appended(m0, m1).contains(p));
                        }
                    }
                }
            }
        }
    }
}

/// Sliding on over an empty cell adds it (when all moves are generated) and goes on.
proof fn lemma_slide_empty_step(
    b: BoardState,
    r: int,
    c: int,
    dr: int,
    dc: int,
    color: PieceColor,
    mode: MoveGenerationMode,
    k: int,
    fuel: nat,
    a: Seq<Point>,
    total: Seq<Point>,
)
    requires
        fuel >= 1,
        cell(b, r + off(k, dr), c + off(k, dc)) == Square::Empty,
        a + slide_from(b, r, c, dr, dc, color, mode, k, fuel) == total,
    ensures
        (a + (if mode == MoveGenerationMode::AllMoves {
            seq![Point((r + off(k, dr)) as usize, (c + off(k, dc)) as usize)]
        } else {
            Seq::empty()
        })) + slide_from(b, r, c, dr, dc, color, mode, k + 1, (fuel - 1) as nat) == total,
{
    let x = if mode == MoveGenerationMode::AllMoves {
        seq![Point((r + off(k, dr)) as usize, (c + off(k, dc)) as usize)]
    } else {
        Seq::empty()
    };
    let rest = slide_from(b, r, c, dr, dc, color, mode, k + 1, (fuel - 1) as nat);
    assert(slide_from(b, r, c, dr, dc, color, mode, k, fuel) == x + rest);
    assert((a + x) + rest =~= a + (x + rest));
}

/// Sliding stops at an occupied cell, which is added if it holds an opposing piece.
proof fn lemma_slide_stop(
    b: BoardState,
    r: int,
    c: int,
    dr: int,
    dc: int,
    color: PieceColor,
    mode: MoveGenerationMode,
    k: int,
    fuel: nat,
    a: Seq<Point>,
    total: Seq<Point>,
)
    requires
        fuel >= 1,
        cell(b, r + off(k, dr), c + off(k, dc)) != Square::Empty,
        a + slide_from(b, r, c, dr, dc, color, mode, k, fuel) == total,
    ensures
        a + (if cell(b, r + off(k, dr), c + off(k, dc)) is Full && cell(b, r + off(k, dr), c + off(k, dc))->0.color
            == color.spec_opposite() {
            seq![Point((r + off(k, dr)) as usize, (c + off(k, dc)) as usize)]
        } else {
            Seq::empty()
        }) == total,
{
}

/// Appends the points reached by sliding in direction (`dr`, `dc`).
#[verifier::spinoff_prover]
#[verifier::rlimit(80)]
fn slide_moves(
    piece: Piece,
    row: usize,
    col: usize,
    dr: i8,
    dc: i8,
    board: &BoardState,
    moves: &mut Vec<Point>,
    move_generation_mode: MoveGenerationMode,
)
    requires
        frame_ok(*board),
        on_board(Point(row, col)),
        -1 <= dr <= 1,
        -1 <= dc <= 1,
        dr != 0 || dc != 0,
    ensures
        grows(old(moves)@, final(moves)@),
        appended(old(moves)@, final(moves)@).no_duplicates(),
        appended(old(moves)@, final(moves)@) == slide_list(
            *board,
            row as int,
            col as int,
            dr as int,
            dc as int,
            piece.color,
            move_generation_mode,
        ),
        forall|p: Point|
            #[trigger] appended(old(moves)@, final(moves)@).contains(p) <==> slide_target(
                *board,
                row as int,
                col as int,
                dr as int,
                dc as int,
                piece.color,
                move_generation_mode,
                p,
            ),
{
    let ghost m0 = moves@;
    proof {
        lemma_grows_refl(m0);
    }
    let ghost r0 = row as int;
    let ghost c0 = col as int;
    let mut r: i8 = row as i8 + dr;
    let mut c: i8 = col as i8 + dc;
    let ghost mut k: int = 1;
    let mut square = board.board[r as usize][c as usize];
    while square.is_empty()
        invariant
            frame_ok(*board),
            on_board(Point(row, col)),
            r0 == row,
            c0 == col,
            -1 <= dr <= 1,
            -1 <= dc <= 1,
            dr != 0 || dc != 0,
            1 <= k <= 8,
            r == r0 + off(k, dr as int),
            c == c0 + off(k, dc as int),
            0 <= r < 12,
            0 <= c < 12,
            square == cell(*board, r as int, c as int),
            clear_between(*board, r0, c0, dr as int, dc as int, k),
            grows(m0, moves@),
            appended(m0, moves@).no_duplicates(),
            appended(m0, moves@) + slide_from(
                *board,
                r0,
                c0,
                dr as int,
                dc as int,
                piece.color,
                move_generation_mode,
                k,
                (9 - k) as nat,
            ) == slide_list(*board, r0, c0, dr as int, dc as int, piece.color, move_generation_mode),
            forall|p: Point|
                #[trigger] appended(m0, moves@).contains(p) <==> (move_generation_mode
                    == MoveGenerationMode::AllMoves && exists|j: int|
                    1 <= j < k && p.0 == r0 + off(j, dr as int) && p.1 == c0 + off(
                        j,
                        dc as int,
                    ) && #[trigger] cell(*board, r0 + off(j, dr as int), c0 + off(j, dc as int))
                        == Square::Empty),
        decreases 8 - k,
    {
        assert(k <= 7) by {
            assert(2 <= r < 10 && 2 <= c < 10);
            if dr > 0 {
                assert(off(k, dr as int) == k);
            } else if dr < 0 {
                assert(off(k, dr as int) == -k);
            } else if dc > 0 {
                assert(off(k, dc as int) == k);
            } else {
                assert(off(k, dc as int) == -k);
            }
        }
        let ghost m1 = moves@;
        if move_generation_mode == MoveGenerationMode::AllMoves {
            proof {
                if appended(m0, m1).contains(Point(r as usize, c as usize)) {
                    let j = choose|j: int|
                        1 <= j < k && r == r0 + off(j, dr as int) && c == c0 + off(
                            j,
                            dc as int,
                        ) && #[trigger] cell(*board, r0 + off(j, dr as int), c0 + off(j, dc as int))
                            == Square::Empty;
                }
            }
            moves.push(Point(r as usize, c as usize));
            proof {
                lemma_grows_push(m0, m1, Point(r as usize, c as usize));
                lemma_grows_push_distinct(m0, m1, Point(r as usize, c as usize));
            }
        }
        proof {
            assert forall|j: int| 1 <= j < k + 1 implies #[trigger] cell(
                *board,
                r0 + off(j, dr as int),
                c0 + off(j, dc as int),
            ) == Square::Empty by {
                if j < k {
                    assert(cell(*board, r0 + off(j, dr as int), c0 + off(j, dc as int))
                        == Square::Empty);
                }
            }
            assert forall|p: Point| #[trigger]
                appended(m0, moves@).contains(p) <==> (move_generation_mode
                    == MoveGenerationMode::AllMoves && exists|j: int|
                    1 <= j < k + 1 && p.0 == r0 + off(j, dr as int) && p.1 == c0 + off(
                        j,
                        dc as int,
                    ) && #[trigger] cell(*board, r0 + off(j, dr as int), c0 + off(j, dc as int))
                        == Square::Empty) by {
                if move_generation_mode == MoveGenerationMode::AllMoves && p == Point(
                    r as usize,
                    c as usize,
                ) {
                    assert(cell(*board, r0 + off(k, dr as int), c0 + off(k, dc as int))
                        == Square::Empty);
                }
                if move_generation_mode == MoveGenerationMode::AllMoves && exists|j: int|
                    1 <= j < k + 1 && p.0 == r0 + off(j, dr as int) && p.1 == c0 + off(
                        j,
                        dc as int,
                    ) && #[trigger] cell(*board, r0 + off(j, dr as int), c0 + off(j, dc as int))
                        == Square::Empty {
                    let j = choose|j: int|
                        1 <= j < k + 1 && p.0 == r0 + off(j, dr as int) && p.1 == c0 + off(
                            j,
                            dc as int,
                        ) && #[trigger] cell(
                            *board,
                            r0 + off(j, dr as int),
                            c0 + off(j, dc as int),
                        ) == Square::Empty;
                    if j == k {
                        assert(p == Point(r as usize, c as usize));
                    } else {
                        assert(appended(m0, m1).contains(p));
                    }
                }
            }
        }
        proof {
            lemma_slide_empty_step(
                *board,
                r0,
                c0,
                dr as int,
                dc as int,
                piece.color,
                move_generation_mode,
                k,
                (9 - k) as nat,
                appended(m0, m1),
                slide_list(*board, r0, c0, dr as int, dc as int, piece.color, move_generation_mode),
            );
            if move_generation_mode == MoveGenerationMode::AllMoves {
                assert(appended(m0, moves@) =~= appended(m0, m1) + seq![Point(r as usize, c as usize)]);
            } else {
                assert(appended(m0, moves@) =~= appended(m0, m1) + Seq::<Point>::empty());
            }
        }
        r = r + dr;
        c = c + dc;
        proof {
            k = k + 1;
        }
        square = board.board[r as usize][c as usize];
    }
    let ghost m1 = moves@;
    let ghost hit = Point(r as usize, c as usize);
    proof {
        lemma_slide_stop(
            *board,
            r0,
            c0,
            dr as int,
            dc as int,
            piece.color,
            move_generation_mode,
            k,
            (9 - k) as nat,
            appended(m0, m1),
            slide_list(*board, r0, c0, dr as int, dc as int, piece.color, move_generation_mode),
        );
    }
    if square.is_color(piece.color.opposite()) {
        proof {
            if appended(m0, m1).contains(hit) {
                let j = choose|j: int|
                    1 <= j < k && hit.0 == r0 + off(j, dr as int) && hit.1 == c0 + off(
                        j,
                        dc as int,
                    ) && #[trigger] cell(*board, r0 + off(j, dr as int), c0 + off(j, dc as int))
                        == Square::Empty;
            }
        }
        moves.push(Point(r as usize, c as usize));
        proof {
            lemma_grows_push(m0, m1, Point(r as usize, c as usize));
            lemma_grows_push_distinct(m0, m1, Point(r as usize, c as usize));
        }
    }
    proof {
        assert forall|p: Point| #[trigger]
            appended(m0, moves@).contains(p) <==> slide_target(
                *board,
                r0,
                c0,
                dr as int,
                dc as int,
                piece.color,
                move_generation_mode,
                p,
            ) by {
            if appended(m0, moves@).contains(p) {
                if appended(m0, m1).contains(p) {
                    let j = choose|j: int|
                        1 <= j < k && p.0 == r0 + off(j, dr as int) && p.1 == c0 + off(
                            j,
                            dc as int,
                        ) && #[trigger] cell(
                            *board,
                            r0 + off(j, dr as int),
                            c0 + off(j, dc as int),
                        ) == Square::Empty;
                    assert(clear_between(*board, r0, c0, dr as int, dc as int, j));
                    assert(landable(
                        cell(*board, r0 + off(j, dr as int), c0 + off(j, dc as int)),
                        piece.color,
                        move_generation_mode,
                    ));
                } else {
                    assert(p == hit);
                    assert(landable(
                        cell(*board, r0 + off(k, dr as int), c0 + off(k, dc as int)),
                        piece.color,
                        move_generation_mode,
                    ));
                }
            }
            if slide_target(
                *board,
                r0,
                c0,
                dr as int,
                dc as int,
                piece.color,
                move_generation_mode,
                p,
            ) {
                let j = choose|j: int|
                    j >= 1 && clear_between(*board, r0, c0, dr as int, dc as int, j) && p.0 == r0
                        + off(j, dr as int) && p.1 == c0 + off(j, dc as int) && #[trigger] landable(
                        cell(*board, r0 + off(j, dr as int), c0 + off(j, dc as int)),
                        piece.color,
                        move_generation_mode,
                    );
                if j < k {
                    assert(cell(*board, r0 + off(j, dr as int), c0 + off(j, dc as int))
                        == Square::Empty);
                    assert(appended(m0, m1).contains(p));
                } else if j > k {
                    assert(cell(*board, r0 + off(k, dr as int), c0 + off(k, dc as int))
                        == Square::Empty);
                } else {
                    assert(p == hit);
                }
            }
        }
    }
}

/// A square reached by sliding in one direction is not reached by sliding in another.
proof fn lemma_slide_directions_apart(
    b: BoardState,
    r: int,
    c: int,
    d1r: int,
    d1c: int,
    d2r: int,
    d2c: int,
    color: PieceColor,
    mode: MoveGenerationMode,
    p: Point,
)
    requires
        -1 <= d1r <= 1,
        -1 <= d1c <= 1,
        -1 <= d2r <= 1,
        -1 <= d2c <= 1,
        d1r != d2r || d1c != d2c,
        d1r != 0 || d1c != 0,
        d2r != 0 || d2c != 0,
        slide_target(b, r, c, d1r, d1c, color, mode, p),
    ensures
        !slide_target(b, r, c, d2r, d2c, color, mode, p),
{
    let k1 = choose|k: int|
        k >= 1 && clear_between(b, r, c, d1r, d1c, k) && p.0 == r + off(k, d1r) && p.1 == c
            + off(k, d1c) && #[trigger] landable(cell(b, r + off(k, d1r), c + off(k, d1c)), color, mode);
    if slide_target(b, r, c, d2r, d2c, color, mode, p) {
        let k2 = choose|k: int|
            k >= 1 && clear_between(b, r, c, d2r, d2c, k) && p.0 == r + off(k, d2r) && p.1 == c
                + off(k, d2c) && #[trigger] landable(cell(b, r + off(k, d2r), c + off(k, d2c)), color, mode);
        assert(off(k1, d1r) == off(k2, d2r));
        assert(off(k1, d1c) == off(k2, d2c));
    }
}

/// Joins a run of slides with the run of the next direction, which shares no square with it.
proof fn lemma_join_slides(
    b: BoardState,
    r: int,
    c: int,
    m0: Seq<Point>,
    m1: Seq<Point>,
    m2: Seq<Point>,
    dirs: Seq<(int, int)>,
    dr: int,
    dc: int,
    color: PieceColor,
    mode: MoveGenerationMode,
)
    requires
        grows(m0, m1),
        grows(m1, m2),
        appended(m0, m1).no_duplicates(),
        appended(m1, m2).no_duplicates(),
        -1 <= dr <= 1,
        -1 <= dc <= 1,
        dr != 0 || dc != 0,
        forall|i: int|
            0 <= i < dirs.len() ==> -1 <= #[trigger] dirs[i].0 <= 1 && -1 <= dirs[i].1 <= 1 && (
            dirs[i].0 != 0 || dirs[i].1 != 0) && (dirs[i].0 != dr || dirs[i].1 != dc),
        forall|p: Point|
            #[trigger] appended(m0, m1).contains(p) ==> exists|i: int|
                0 <= i < dirs.len() && slide_target(b, r, c, #[trigger] dirs[i].0, dirs[i].1, color, mode, p),
        forall|p: Point|
            #[trigger] appended(m1, m2).contains(p) <==> slide_target(b, r, c, dr, dc, color, mode, p),
    ensures
        appended(m0, m2).no_duplicates(),
{
    assert forall|p: Point| #[trigger] appended(m0, m1).contains(p) implies !appended(m1, m2).contains(
        p,
    ) by {
        let i = choose|i: int|
            0 <= i < dirs.len() && slide_target(b, r, c, #[trigger] dirs[i].0, dirs[i].1, color, mode, p);
        lemma_slide_directions_apart(b, r, c, dirs[i].0, dirs[i].1, dr, dc, color, mode, p);
    }
    lemma_grows_trans_distinct(m0, m1, m2);
}

/*
    Generate pseudo-legal moves for a rook
*/
pub fn rook_moves(
    piece: Piece,
    row: usize,
    col: usize,
    board: &BoardState,
    moves: &mut Vec<Point>,
    move_generation_mode: MoveGenerationMode,
)
    requires
        frame_ok(*board),
        on_board(Point(row, col)),
    ensures
        grows(old(moves)@, final(moves)@),
        appended(old(moves)@, final(moves)@).no_duplicates(),
        appended(old(moves)@, final(moves)@) == rook_list(*board, row as int, col as int, piece.color, move_generation_mode),
        forall|p: Point|
            #[trigger] appended(old(moves)@, final(moves)@).contains(p) <==> rook_target(
                *board,
                row as int,
                col as int,
                piece.color,
                move_generation_mode,
                p,
            ),
{
    let ghost r0 = row as int;
    let ghost c0 = col as int;
    let ghost m0 = moves@;
    slide_moves(piece, row, col, 1, 0, board, moves, move_generation_mode);
    let ghost m1 = moves@;
    slide_moves(piece, row, col, -1, 0, board, moves, move_generation_mode);
    let ghost m2 = moves@;
    proof {
        lemma_grows_trans(m0, m1, m2);
        let dirs = seq![(1int, 0int)];
        assert forall|p: Point| #[trigger] appended(m0, m1).contains(p) implies exists|i: int|
            0 <= i < dirs.len() && slide_target(*board, r0, c0, #[trigger] dirs[i].0, dirs[i].1, piece.color, move_generation_mode, p) by {
            if slide_target(*board, r0, c0, 1, 0, piece.color, move_generation_mode, p) {
                assert(dirs[0].0 == 1 && dirs[0].1 == 0);
            }
        }
        lemma_join_slides(*board, r0, c0, m0, m1, m2, dirs, -1, 0, piece.color, move_generation_mode);
    }
    slide_moves(piece, row, col, 0, 1, board, moves, move_generation_mode);
    let ghost m3 = moves@;
    proof {
        lemma_grows_trans(m0, m2, m3);
        let dirs = seq![(1int, 0int), (-1int, 0int)];
        assert forall|p: Point| #[trigger] appended(m0, m2).contains(p) implies exists|i: int|
            0 <= i < dirs.len() && slide_target(*board, r0, c0, #[trigger] dirs[i].0, dirs[i].1, piece.color, move_generation_mode, p) by {
            if slide_target(*board, r0, c0, 1, 0, piece.color, move_generation_mode, p) {
                assert(dirs[0].0 == 1 && dirs[0].1 == 0);
            }
            if slide_target(*board, r0, c0, -1, 0, piece.color, move_generation_mode, p) {
                assert(dirs[1].0 == -1 && dirs[1].1 == 0);
            }
        }
        lemma_join_slides(*board, r0, c0, m0, m2, m3, dirs, 0, 1, piece.color, move_generation_mode);
    }
    slide_moves(piece, row, col, 0, -1, board, moves, move_generation_mode);
    let ghost m4 = moves@;
    proof {
        lemma_grows_trans(m0, m3, m4);
        let dirs = seq![(1int, 0int), (-1int, 0int), (0int, 1int)];
        assert forall|p: Point| #[trigger] appended(m0, m3).contains(p) implies exists|i: int|
            0 <= i < dirs.len() && slide_target(*board, r0, c0, #[trigger] dirs[i].0, dirs[i].1, piece.color, move_generation_mode, p) by {
            if slide_target(*board, r0, c0, 1, 0, piece.color, move_generation_mode, p) {
                assert(dirs[0].0 == 1 && dirs[0].1 == 0);
            }
            if slide_target(*board, r0, c0, -1, 0, piece.color, move_generation_mode, p) {
                assert(dirs[1].0 == -1 && dirs[1].1 == 0);
            }
            if slide_target(*board, r0, c0, 0, 1, piece.color, move_generation_mode, p) {
                assert(dirs[2].0 == 0 && dirs[2].1 == 1);
            }
        }
        lemma_join_slides(*board, r0, c0, m0, m3, m4, dirs, 0, -1, piece.color, move_generation_mode);
    }
    proof {
        assert(appended(m0, m4) =~= appended(m0, m1) + appended(m1, m2) + appended(m2, m3) + appended(m3, m4));
    }
}

/*
    Generate pseudo-legal moves for a bishop
*/
pub fn bishop_moves(
    piece: Piece,
    row: usize,
    col: usize,
    board: &BoardState,
    moves: &mut Vec<Point>,
    move_generation_mode: MoveGenerationMode,
)
    requires
        frame_ok(*board),
        on_board(Point(row, col)),
    ensures
        grows(old(moves)@, final(moves)@),
        appended(old(moves)@, final(moves)@).no_duplicates(),
        appended(old(moves)@, final(moves)@) == bishop_list(*board, row as int, col as int, piece.color, move_generation_mode),
        forall|p: Point|
            #[trigger] appended(old(moves)@, final(moves)@).contains(p) <==> bishop_target(
                *board,
                row as int,
                col as int,
                piece.color,
                move_generation_mode,
                p,
            ),
{
    let ghost r0 = row as int;
    let ghost c0 = col as int;
    let ghost m0 = moves@;
    slide_moves(piece, row, col, 1, -1, board, moves, move_generation_mode);
    let ghost m1 = moves@;
    slide_moves(piece, row, col, 1, 1, board, moves, move_generation_mode);
    let ghost m2 = moves@;
    proof {
        lemma_grows_trans(m0, m1, m2);
        let dirs = seq![(1int, -1int)];
        assert forall|p: Point| #[trigger] appended(m0, m1).contains(p) implies exists|i: int|
            0 <= i < dirs.len() && slide_target(*board, r0, c0, #[trigger] dirs[i].0, dirs[i].1, piece.color, move_generation_mode, p) by {
            if slide_target(*board, r0, c0, 1, -1, piece.color, move_generation_mode, p) {
                assert(dirs[0].0 == 1 && dirs[0].1 == -1);
            }
        }
        lemma_join_slides(*board, r0, c0, m0, m1, m2, dirs, 1, 1, piece.color, move_generation_mode);
    }
    slide_moves(piece, row, col, -1, 1, board, moves, move_generation_mode);
    let ghost m3 = moves@;
    proof {
        lemma_grows_trans(m0, m2, m3);
        let dirs = seq![(1int, -1int), (1int, 1int)];
        assert forall|p: Point| #[trigger] appended(m0, m2).contains(p) implies exists|i: int|
            0 <= i < dirs.len() && slide_target(*board, r0, c0, #[trigger] dirs[i].0, dirs[i].1, piece.color, move_generation_mode, p) by {
            if slide_target(*board, r0, c0, 1, -1, piece.color, move_generation_mode, p) {
                assert(dirs[0].0 == 1 && dirs[0].1 == -1);
            }
            if slide_target(*board, r0, c0, 1, 1, piece.color, move_generation_mode, p) {
                assert(dirs[1].0 == 1 && dirs[1].1 == 1);
            }
        }
        lemma_join_slides(*board, r0, c0, m0, m2, m3, dirs, -1, 1, piece.color, move_generation_mode);
    }
    slide_moves(piece, row, col, -1, -1, board, moves, move_generation_mode);
    let ghost m4 = moves@;
    proof {
        lemma_grows_trans(m0, m3, m4);
        let dirs = seq![(1int, -1int), (1int, 1int), (-1int, 1int)];
        assert forall|p: Point| #[trigger] appended(m0, m3).contains(p) implies exists|i: int|
            0 <= i < dirs.len() && slide_target(*board, r0, c0, #[trigger] dirs[i].0, dirs[i].1, piece.color, move_generation_mode, p) by {
            if slide_target(*board, r0, c0, 1, -1, piece.color, move_generation_mode, p) {
                assert(dirs[0].0 == 1 && dirs[0].1 == -1);
            }
            if slide_target(*board, r0, c0, 1, 1, piece.color, move_generation_mode, p) {
                assert(dirs[1].0 == 1 && dirs[1].1 == 1);
            }
            if slide_target(*board, r0, c0, -1, 1, piece.color, move_generation_mode, p) {
                assert(dirs[2].0 == -1 && dirs[2].1 == 1);
            }
        }
        lemma_join_slides(*board, r0, c0, m0, m3, m4, dirs, -1, -1, piece.color, move_generation_mode);
    }
    proof {
        assert(appended(m0, m4) =~= appended(m0, m1) + appended(m1, m2) + appended(m2, m3) + appended(m3, m4));
    }
}

/// No square is reached both along a line and along a diagonal.
proof fn lemma_rook_bishop_apart(
    b: BoardState,
    r: int,
    c: int,
    color: PieceColor,
    mode: MoveGenerationMode,
    p: Point,
)
    requires
        rook_target(b, r, c, color, mode, p),
    ensures
        !bishop_target(b, r, c, color, mode, p),
{
    if slide_target(b, r, c, 1, 0, color, mode, p) {
        lemma_slide_directions_apart(b, r, c, 1, 0, 1, -1, color, mode, p);
        lemma_slide_directions_apart(b, r, c, 1, 0, 1, 1, color, mode, p);
        lemma_slide_directions_apart(b, r, c, 1, 0, -1, 1, color, mode, p);
        lemma_slide_directions_apart(b, r, c, 1, 0, -1, -1, color, mode, p);
    }
    if slide_target(b, r, c, -1, 0, color, mode, p) {
        lemma_slide_directions_apart(b, r, c, -1, 0, 1, -1, color, mode, p);
        lemma_slide_directions_apart(b, r, c, -1, 0, 1, 1, color, mode, p);
        lemma_slide_directions_apart(b, r, c, -1, 0, -1, 1, color, mode, p);
        lemma_slide_directions_apart(b, r, c, -1, 0, -1, -1, color, mode, p);
    }
    if slide_target(b, r, c, 0, 1, color, mode, p) {
        lemma_slide_directions_apart(b, r, c, 0, 1, 1, -1, color, mode, p);
        lemma_slide_directions_apart(b, r, c, 0, 1, 1, 1, color, mode, p);
        lemma_slide_directions_apart(b, r, c, 0, 1, -1, 1, color, mode, p);
        lemma_slide_directions_apart(b, r, c, 0, 1, -1, -1, color, mode, p);
    }
    if slide_target(b, r, c, 0, -1, color, mode, p) {
        lemma_slide_directions_apart(b, r, c, 0, -1, 1, -1, color, mode, p);
        lemma_slide_directions_apart(b, r, c, 0, -1, 1, 1, color, mode, p);
        lemma_slide_directions_apart(b, r, c, 0, -1, -1, 1, color, mode, p);
        lemma_slide_directions_apart(b, r, c, 0, -1, -1, -1, color, mode, p);
    }
}

/*
    Generate pseudo-legal moves for a queen
*/
pub fn queen_moves(
    piece: Piece,
    row: usize,
    col: usize,
    board: &BoardState,
    moves: &mut Vec<Point>,
    move_generation_mode: MoveGenerationMode,
)
    requires
        frame_ok(*board),
        on_board(Point(row, col)),
    ensures
        grows(old(moves)@, final(moves)@),
        appended(old(moves)@, final(moves)@).no_duplicates(),
        appended(old(moves)@, final(moves)@) == rook_list(*board, row as int, col as int, piece.color, move_generation_mode)
            + bishop_list(*board, row as int, col as int, piece.color, move_generation_mode),
        forall|p: Point|
            #[trigger] appended(old(moves)@, final(moves)@).contains(p) <==> (rook_target(
                *board,
                row as int,
                col as int,
                piece.color,
                move_generation_mode,
                p,
            ) || bishop_target(
                *board,
                row as int,
                col as int,
                piece.color,
                move_generation_mode,
                p,
            )),
{
    let ghost m0 = moves@;
    rook_moves(piece, row, col, board, moves, move_generation_mode);
    let ghost m1 = moves@;
    bishop_moves(piece, row, col, board, moves, move_generation_mode);
    proof {
        lemma_grows_trans(m0, m1, moves@);
        assert forall|p: Point| #[trigger] appended(m0, m1).contains(p) implies !appended(
            m1,
            moves@,
        ).contains(p) by {
            lemma_rook_bishop_apart(*board, row as int, col as int, piece.color, move_generation_mode, p);
        }
        lemma_grows_trans_distinct(m0, m1, moves@);
    }
}

/// Appends `p` when `cond` holds.
fn push_if(moves: &mut Vec<Point>, cond: bool, p: Point)
    ensures
        grows(old(moves)@, final(moves)@),
        appended(old(moves)@, final(moves)@).no_duplicates(),
        appended(old(moves)@, final(moves)@) == when(cond, p),
        forall|q: Point| #[trigger] appended(old(moves)@, final(moves)@).contains(q) <==> (cond && q == p),
{
    let ghost m0 = moves@;
    proof {
        lemma_grows_refl(m0);
    }
    if cond {
        moves.push(p);
        proof {
            lemma_grows_push(m0, m0, p);
            lemma_grows_push_distinct(m0, m0, p);
        }
    }
}

/*
    Generate pseudo-legal moves for a pawn
*/
pub fn pawn_moves(
    piece: Piece,
    row: usize,
    col: usize,
    board: &BoardState,
    moves: &mut Vec<Point>,
    move_generation_mode: MoveGenerationMode,
)
    requires
        on_board(Point(row, col)),
    ensures
        grows(old(moves)@, final(moves)@),
        appended(old(moves)@, final(moves)@).no_duplicates(),
        appended(old(moves)@, final(moves)@) == pawn_list(*board, row as int, col as int, piece.color, move_generation_mode),
        forall|p: Point|
            #[trigger] appended(old(moves)@, final(moves)@).contains(p) <==> pawn_target(
                *board,
                row as int,
                col as int,
                piece.color,
                move_generation_mode,
                p,
            ),
{
    let ghost m0 = moves@;
    match piece.color {
        // white pawns move up board
        PieceColor::White => {
            // check capture
            let left_cap = board.board[row - 1][col - 1];
            let right_cap = board.board[row - 1][col + 1];
            push_if(moves, left_cap.is_color(PieceColor::Black), Point(row - 1, col - 1));
            let ghost m1 = moves@;
            push_if(moves, right_cap.is_color(PieceColor::Black), Point(row - 1, col + 1));
            let ghost m2 = moves@;
            proof {
                lemma_grows_trans(m0, m1, m2);
                lemma_grows_trans_distinct(m0, m1, m2);
            }
            // check a normal push
            let push = move_generation_mode == MoveGenerationMode::AllMoves
                && (board.board[row - 1][col]).is_empty();
            push_if(moves, push, Point(row - 1, col));
            let ghost m3 = moves@;
            proof {
                lemma_grows_trans(m0, m2, m3);
                lemma_grows_trans_distinct(m0, m2, m3);
            }
            // check double push
            let double = push && row == 8 && (board.board[row - 2][col]).is_empty();
            push_if(moves, double, Point(row - 2, col));
            proof {
                lemma_grows_trans(m0, m3, moves@);
                lemma_grows_trans_distinct(m0, m3, moves@);
                assert(appended(m0, moves@) =~= appended(m0, m1) + appended(m1, m2) + appended(m2, m3)
                    + appended(m3, moves@));
            }
        },
        // black pawns move down board
        PieceColor::Black => {
            // check capture
            let left_cap = board.board[row + 1][col + 1];
            let right_cap = board.board[row + 1][col - 1];
            push_if(moves, left_cap.is_color(PieceColor::White), Point(row + 1, col + 1));
            let ghost m1 = moves@;
            push_if(moves, right_cap.is_color(PieceColor::White), Point(row + 1, col - 1));
            let ghost m2 = moves@;
            proof {
                lemma_grows_trans(m0, m1, m2);
                lemma_grows_trans_distinct(m0, m1, m2);
            }
            // check a normal push
            let push = move_generation_mode == MoveGenerationMode::AllMoves
                && (board.board[row + 1][col]).is_empty();
            push_if(moves, push, Point(row + 1, col));
            let ghost m3 = moves@;
            proof {
                lemma_grows_trans(m0, m2, m3);
                lemma_grows_trans_distinct(m0, m2, m3);
            }
            // check double push
            let double = push && row == 3 && (board.board[row + 2][col]).is_empty();
            push_if(moves, double, Point(row + 2, col));
            proof {
                lemma_grows_trans(m0, m3, moves@);
                lemma_grows_trans_distinct(m0, m3, moves@);
                assert(appended(m0, moves@) =~= appended(m0, m1) + appended(m1, m2) + appended(m2, m3)
                    + appended(m3, moves@));
            }
        },
    }
}

/*
    Generate pseudo-legal moves for a piece
    This will not generate en passants and castling, these cases are handled separately
*/
pub fn get_moves(
    piece: Piece,
    row: usize,
    col: usize,
    board: &BoardState,
    moves: &mut Vec<Point>,
    move_generation_mode: MoveGenerationMode,
)
    requires
        frame_ok(*board),
        on_board(Point(row, col)),
    ensures
        grows(old(moves)@, final(moves)@),
        appended(old(moves)@, final(moves)@).no_duplicates(),
        appended(old(moves)@, final(moves)@) == piece_list(*board, piece, row as int, col as int, move_generation_mode),
        forall|p: Point|
            #[trigger] appended(old(moves)@, final(moves)@).contains(p) <==> piece_target(
                *board,
                piece,
                row as int,
                col as int,
                move_generation_mode,
                p,
            ),
{
    match piece.kind {
        PieceKind::Pawn => pawn_moves(piece, row, col, board, moves, move_generation_mode),
        PieceKind::Rook => rook_moves(piece, row, col, board, moves, move_generation_mode),
        PieceKind::Bishop => bishop_moves(piece, row, col, board, moves, move_generation_mode),
        PieceKind::Knight => knight_moves(piece, row, col, board, moves, move_generation_mode),
        PieceKind::King => king_moves(piece, row, col, board, moves, move_generation_mode),
        PieceKind::Queen => queen_moves(piece, row, col, board, moves, move_generation_mode),
    }
}

// ---------------------------------------------------------------------------------------
// Positions reached by moving one piece.

/// The MVV-LVA score (most valuable victim, least valuable attacker) of a capture, by the
/// kinds' indices; see https://www.chessprogramming.org/MVV-LVA
pub open spec fn spec_mvv_lva(victim: int, attacker: int) -> int {
    if 1 <= victim <= 5 && 0 <= attacker <= 5 {
        (6 - victim) * 10 + attacker
    } else {
        0
    }
}

// MVV-LVA score, addressed as [victim][attacker]
pub fn mvv_lva(victim: usize, attacker: usize) -> (r: i32)
    requires
        victim < 7,
        attacker < 7,
    ensures
        r as int == spec_mvv_lva(victim as int, attacker as int),
{
    if 1 <= victim && victim <= 5 && attacker <= 5 {
        ((6 - victim) * 10 + attacker) as i32
    } else {
        0
    }
}

/// The board with `piece` moved from `from` to `to`.
pub open spec fn moved_board(
    b: [[Square; 12]; 12],
    piece: Piece,
    from: Point,
    to: Point,
) -> [[Square; 12]; 12] {
    with_square(
        with_square(b, to.0 as int, to.1 as int, Square::Full(piece)),
        from.0 as int,
        from.1 as int,
        Square::Empty,
    )
}

/// The ordering score of a move onto a square holding `target`.
pub open spec fn capture_score(target: Square, piece: Piece) -> i32 {
    match target {
        Square::Full(t) => spec_mvv_lva(t.kind.spec_index(), piece.kind.spec_index()) as i32,
        _ => i32::MIN,
    }
}

/// The position after `piece` moves from `from` to `to`, before castling rights, the en
/// passant target and promotion are settled. The Zobrist key is left as it was.
pub open spec fn base_successor(b: BoardState, piece: Piece, from: Point, to: Point) -> BoardState {
    BoardState {
        board: moved_board(b.board, piece, from, to),
        to_move: b.to_move.spec_opposite(),
        white_king_location: if piece == (Piece { color: PieceColor::White, kind: PieceKind::King }) {
            to
        } else {
            b.white_king_location
        },
        black_king_location: if piece == (Piece { color: PieceColor::Black, kind: PieceKind::King }) {
            to
        } else {
            b.black_king_location
        },
        order_heuristic: capture_score(cell(b, to.0 as int, to.1 as int), piece),
        last_move: Some((from, to)),
        pawn_promotion: None,
        ..b
    }
}

/// Castling rights after a move from `from` to `to`: a king move gives up both of its side's
/// rights, a move from a rook's corner gives up that corner's right, and so does a move onto
/// a rook's corner.
pub open spec fn rights_after(s: BoardState, piece: Piece, from: Point, to: Point) -> BoardState {
    let (f0, f1, t0, t1) = (from.0 as int, from.1 as int, to.0 as int, to.1 as int);
    let s1 = if piece.kind == PieceKind::King {
        if piece.color == PieceColor::White {
            BoardState { white_king_side_castle: false, white_queen_side_castle: false, ..s }
        } else {
            BoardState { black_queen_side_castle: false, black_king_side_castle: false, ..s }
        }
    } else if f0 == 9 && f1 == 9 {
        BoardState { white_king_side_castle: false, ..s }
    } else if f0 == 9 && f1 == 2 {
        BoardState { white_queen_side_castle: false, ..s }
    } else if f0 == 2 && f1 == 2 {
        BoardState { black_queen_side_castle: false, ..s }
    } else if f0 == 2 && f1 == 9 {
        BoardState { black_king_side_castle: false, ..s }
    } else {
        s
    };
    if t0 == 9 && t1 == 9 {
        BoardState { white_king_side_castle: false, ..s1 }
    } else if t0 == 9 && t1 == 2 {
        BoardState { white_queen_side_castle: false, ..s1 }
    } else if t0 == 2 && t1 == 2 {
        BoardState { black_queen_side_castle: false, ..s1 }
    } else if t0 == 2 && t1 == 9 {
        BoardState { black_king_side_castle: false, ..s1 }
    } else {
        s1
    }
}

/// The en passant target after a move: the square behind a pawn that made a double step.
pub open spec fn en_passant_after(piece: Piece, from: Point, to: Point) -> Option<Point> {
    if piece.kind == PieceKind::Pawn && (from.0 - to.0 == 2 || to.0 - from.0 == 2) {
        if piece.color == PieceColor::White {
            Some(Point((to.0 + 1) as usize, to.1))
        } else {
            Some(Point((to.0 - 1) as usize, to.1))
        }
    } else {
        None
    }
}

/// The bonus given to the ordering score of a promotion.
pub const PAWN_PROMOTION_SCORE: i32 = 800; // queen value - pawn value

/// `s` with the pawn that reached `target` turned into a piece of `kind`.
pub open spec fn promoted(s: BoardState, color: PieceColor, start: Point, target: Point, kind: PieceKind) -> BoardState {
    let promotion_piece = Piece { color, kind };
    BoardState {
        pawn_double_move: None,
        board: with_square(s.board, target.0 as int, target.1 as int, Square::Full(promotion_piece)),
        last_move: Some((start, target)),
        pawn_promotion: Some(promotion_piece),
        order_heuristic: PAWN_PROMOTION_SCORE,
        ..s
    }
}

/// The four promotions, in the order queen, knight, bishop, rook.
pub open spec fn promotions(s: BoardState, color: PieceColor, start: Point, target: Point) -> Seq<BoardState> {
    seq![
        promoted(s, color, start, target, PieceKind::Queen),
        promoted(s, color, start, target, PieceKind::Knight),
        promoted(s, color, start, target, PieceKind::Bishop),
        promoted(s, color, start, target, PieceKind::Rook),
    ]
}

/// Whether a pawn of `color` arriving on row `row` is promoted.
pub open spec fn promotes(piece: Piece, to: Point) -> bool {
    piece.kind == PieceKind::Pawn && ((piece.color == PieceColor::White && to.0 == BOARD_START)
        || (piece.color == PieceColor::Black && to.0 == BOARD_END - 1))
}

/// The positions produced for the move of `piece` from `from` to `to`: none when it leaves the
/// mover in check; otherwise one position, or four when a pawn is promoted (promotions and
/// the en passant target are only settled when all moves are generated).
pub open spec fn successors(
    b: BoardState,
    piece: Piece,
    from: Point,
    to: Point,
    mode: MoveGenerationMode,
) -> Seq<BoardState> {
    let s0 = base_successor(b, piece, from, to);
    if in_check(s0, piece.color) {
        Seq::empty()
    } else {
        let s1 = rights_after(s0, piece, from, to);
        if mode == MoveGenerationMode::AllMoves {
            let s2 = BoardState { pawn_double_move: en_passant_after(piece, from, to), ..s1 };
            if promotes(piece, to) {
                promotions(s2, piece.color, from, to)
            } else {
                seq![s2]
            }
        } else {
            seq![s1]
        }
    }
}

/// The square a pawn on (`row`, `col`) may capture en passant, if any.
pub open spec fn en_passant_square(b: BoardState, piece: Piece, row: int, col: int) -> Option<Point> {
    match b.pawn_double_move {
        Some(target) => {
            if piece.color == PieceColor::White && row == BOARD_START + 3 {
                if target.0 == row - 1 && target.1 == col - 1 {
                    Some(target)
                } else if target.0 == row - 1 && target.1 == col + 1 {
                    Some(target)
                } else {
                    None
                }
            } else if piece.color == PieceColor::Black && row == BOARD_START + 4 {
                if target.0 == row + 1 && target.1 == col + 1 {
                    Some(target)
                } else if target.0 == row + 1 && target.1 == col - 1 {
                    Some(target)
                } else {
                    None
                }
            } else {
                None
            }
        },
        None => None,
    }
}

/// The position after a pawn of `piece`'s color captures en passant from `from` to `to`.
pub open spec fn en_passant_successor(b: BoardState, piece: Piece, from: Point, to: Point) -> BoardState {
    let behind = if piece.color == PieceColor::White { to.0 + 1 } else { to.0 - 1 };
    BoardState {
        last_move: Some((from, to)),
        to_move: b.to_move.spec_opposite(),
        pawn_double_move: None,
        board: with_square(moved_board(b.board, piece, from, to), behind, to.1 as int, Square::Empty),
        ..b
    }
}

/// The positions produced for an en passant capture by `piece` on `from`.
pub open spec fn en_passant_successors(b: BoardState, piece: Piece, from: Point) -> Seq<BoardState> {
    if piece.kind == PieceKind::Pawn {
        match en_passant_square(b, piece, from.0 as int, from.1 as int) {
            Some(to) => {
                let s = en_passant_successor(b, piece, from, to);
                if in_check(s, b.to_move) {
                    Seq::empty()
                } else {
                    seq![s]
                }
            },
            None => Seq::empty(),
        }
    } else {
        Seq::empty()
    }
}

/// Whether `s` is one of the positions produced for `piece` on `from`.
pub open spec fn piece_successor(
    b: BoardState,
    piece: Piece,
    from: Point,
    mode: MoveGenerationMode,
    s: BoardState,
) -> bool {
    (exists|to: Point|
        piece_target(b, piece, from.0 as int, from.1 as int, mode, to) && #[trigger] successors(
            b,
            piece,
            from,
            to,
            mode,
        ).contains(s)) || en_passant_successors(b, piece, from).contains(s)
}

/// The padded board keeps its boundary when an on-board cell changes.
pub proof fn lemma_frame_with_square(b: BoardState, p: Point, x: Square, nb: BoardState)
    requires
        frame_ok(b),
        on_board(p),
        nb.board == with_square(b.board, p.0 as int, p.1 as int, x),
    ensures
        frame_ok(nb),
{
    assert forall|r: int, c: int|
        0 <= r < 12 && 0 <= c < 12 && !(BOARD_START <= r < BOARD_END && BOARD_START <= c
            < BOARD_END) implies #[trigger] cell(nb, r, c) == Square::Boundary by {
        assert(cell(b, r, c) == Square::Boundary);
        if r == p.0 {
            assert(nb.board[r]@ == b.board[r]@.update(p.1 as int, x));
        }
    }
}

/*
    Executes a pawn promotion on the given cords

    This function assumes that the board state is a valid pawn promotion and does not do additional checks
*/
fn promote_pawn(
    board: &BoardState,
    color: PieceColor,
    start: Point,
    target: Point,
    moves: &mut Vec<BoardState>,
)
    requires
        in_array(target),
    ensures
        final(moves)@ == old(moves)@ + promotions(*board, color, start, target),
{
    let ghost m0 = moves@;
    let mut i: usize = 0;
    while i < 4
        invariant
            i <= 4,
            in_array(target),
            moves@ == m0 + promotions(*board, color, start, target).take(i as int),
        decreases 4 - i,
    {
        let kind = if i == 0 {
            PieceKind::Queen
        } else if i == 1 {
            PieceKind::Knight
        } else if i == 2 {
            PieceKind::Bishop
        } else {
            PieceKind::Rook
        };
        let mut new_board = *board;
        new_board.pawn_double_move = None;
        let promotion_piece = Piece { color, kind };
        new_board.board[target.0][target.1] = Square::Full(promotion_piece);
        new_board.last_move = Some((start, target));
        new_board.pawn_promotion = Some(promotion_piece);
        new_board.order_heuristic = PAWN_PROMOTION_SCORE;  // a pawn promotion is usually a good idea
        proof {
            assert(new_board.board =~= promoted(*board, color, start, target, kind).board);
            assert(promotions(*board, color, start, target).take(i + 1) =~= promotions(
                *board,
                color,
                start,
                target,
            ).take(i as int).push(promoted(*board, color, start, target, kind)));
        }
        moves.push(new_board);
        i = i + 1;
    }
    assert(promotions(*board, color, start, target).take(4) =~= promotions(*board, color, start, target));
}

pub proof fn lemma_grows_concat<T>(a: Seq<T>, t: Seq<T>)
    ensures
        grows(a, a + t),
        appended(a, a + t) == t,
{
    assert((a + t).take(a.len() as int) =~= a);
    assert(appended(a, a + t) =~= t);
}

/*
    Generate pseudo-legal en passant moves

    Uses the pawn_double_move cords to decide if a en passant capture is legal

    Returns None if no legal move is available, otherwise return the coordinates of the capture
*/
pub fn pawn_moves_en_passant(piece: Piece, row: usize, col: usize, board: &BoardState) -> (r: Option<Point>)
    requires
        on_board(Point(row, col)),
    ensures
        r == en_passant_square(*board, piece, row as int, col as int),
{
    if let Some(double_moved_pawn) = board.pawn_double_move {
        let left_cap;
        let right_cap;
        match piece.color {
            PieceColor::White if row == BOARD_START + 3 => {
                left_cap = Point(row - 1, col - 1);
                right_cap = Point(row - 1, col + 1);
            },
            PieceColor::Black if row == BOARD_START + 4 => {
                left_cap = Point(row + 1, col + 1);
                right_cap = Point(row + 1, col - 1);
            },
            _ => return None,
        }
        if left_cap == double_moved_pawn {
            return Some(left_cap);
        } else if right_cap == double_moved_pawn {
            return Some(right_cap);
        }
    }
    None
}

/// Whether every target square of a piece lies on the playing area.
pub proof fn lemma_target_on_board(
    b: BoardState,
    piece: Piece,
    r: int,
    c: int,
    mode: MoveGenerationMode,
    p: Point,
)
    requires
        frame_ok(b),
        2 <= r < 10,
        2 <= c < 10,
        piece_target(b, piece, r, c, mode, p),
    ensures
        on_board(p),
{
    match piece.kind {
        PieceKind::Pawn => {},
        PieceKind::Knight => {
            let i = choose|i: int|
                0 <= i < 8 && #[trigger] step_target(b, r, c, knight_dr(i), knight_dc(i), piece.color, mode, p);
        },
        PieceKind::King => {
            let (i, j) = choose|i: int, j: int|
                0 <= i < 3 && 0 <= j < 3 && #[trigger] step_target(b, r, c, i - 1, j - 1, piece.color, mode, p);
        },
        _ => {
            assert forall|dr: int, dc: int|
                -1 <= dr <= 1 && -1 <= dc <= 1 && (dr != 0 || dc != 0) && #[trigger] slide_target(b, r, c, dr, dc, piece.color, mode, p)
                implies on_board(p) by {
                lemma_slide_target_on_board(b, r, c, dr, dc, piece.color, mode, p);
            }
        },
    }
}

/// Every square reached by sliding from the playing area lies on the playing area.
proof fn lemma_slide_target_on_board(
    b: BoardState,
    r: int,
    c: int,
    dr: int,
    dc: int,
    color: PieceColor,
    mode: MoveGenerationMode,
    p: Point,
)
    requires
        frame_ok(b),
        2 <= r < 10,
        2 <= c < 10,
        -1 <= dr <= 1,
        -1 <= dc <= 1,
        dr != 0 || dc != 0,
        slide_target(b, r, c, dr, dc, color, mode, p),
    ensures
        on_board(p),
{
    let k = choose|k: int|
        k >= 1 && clear_between(b, r, c, dr, dc, k) && p.0 == r + off(k, dr) && p.1 == c
            + off(k, dc) && #[trigger] landable(cell(b, r + off(k, dr), c + off(k, dc)), color, mode);
    let er = if dr > 0 { 10 - r } else if dr < 0 { r - 1 } else { 100 };
    let ec = if dc > 0 { 10 - c } else if dc < 0 { c - 1 } else { 100 };
    let m = if er < ec { er } else { ec };
    let mr = r + off(m, dr);
    let mc = c + off(m, dc);
    assert(0 <= mr < 12 && 0 <= mc < 12);
    assert(!(BOARD_START <= mr < BOARD_END && BOARD_START <= mc < BOARD_END));
    assert(cell(b, mr, mc) == Square::Boundary);
    if k > m {
        assert(cell(b, r + off(m, dr), c + off(m, dc)) == Square::Empty);
    }
    assert(k < m);
}

/// The position after `piece` moves from `from` to `mov`, castling rights, en passant target
/// and promotion not yet settled.
fn base_move(piece: Piece, board: &BoardState, square_cords: Point, mov: Point) -> (r: BoardState)
    requires
        frame_ok(*board),
        on_board(square_cords),
        on_board(mov),
    ensures
        r == base_successor(*board, piece, square_cords, mov),
        frame_ok(r),
{
    let ghost b = *board;
    let mut new_board = *board;
    new_board.pawn_promotion = None;
    new_board.to_move = new_board.to_move.opposite();
    // update king location if we are moving the king
    if piece.kind == PieceKind::King {
        match piece.color {
            PieceColor::White => new_board.white_king_location = mov,
            PieceColor::Black => new_board.black_king_location = mov,
        }
    }
    let target_square = new_board.board[mov.0][mov.1];
    if let Square::Full(target_piece) = target_square {
        new_board.order_heuristic = mvv_lva(target_piece.index(), piece.index());
    } else {
        // by default all moves are given a minimum score
        new_board.order_heuristic = i32::MIN;
    }
    // move the piece, this will take care of any captures as well, excluding en passant
    let ghost nb0 = new_board;
    new_board.board[mov.0][mov.1] = Square::Full(piece);
    let ghost nb1 = new_board;
    new_board.board[square_cords.0][square_cords.1] = Square::Empty;
    new_board.last_move = Some((square_cords, mov));
    proof {
        assert(frame_ok(nb0)) by {
            assert forall|r: int, c: int|
                0 <= r < 12 && 0 <= c < 12 && !(BOARD_START <= r < BOARD_END && BOARD_START
                    <= c < BOARD_END) implies #[trigger] cell(nb0, r, c) == Square::Boundary by {
                assert(cell(b, r, c) == Square::Boundary);
            }
        }
        lemma_frame_with_square(nb0, mov, Square::Full(piece), nb1);
        lemma_frame_with_square(nb1, square_cords, Square::Empty, new_board);
        assert(new_board =~= base_successor(b, piece, square_cords, mov));
    }
    new_board
}

/// Takes away the castling rights that a move from `from` to `mov` gives up.
fn strip_rights(new_board: &mut BoardState, piece: Piece, square_cords: Point, mov: Point)
    ensures
        *final(new_board) == rights_after(*old(new_board), piece, square_cords, mov),
{
    // if the rook or king move, take away castling privileges
    if piece.kind == PieceKind::King {
        if piece.color == PieceColor::White {
            new_board.white_king_side_castle = false;
            new_board.white_queen_side_castle = false;
        } else {
            new_board.black_queen_side_castle = false;
            new_board.black_king_side_castle = false;
        }
    } else if square_cords.0 == BOARD_END - 1 && square_cords.1 == BOARD_END - 1 {
        new_board.white_king_side_castle = false;
    } else if square_cords.0 == BOARD_END - 1 && square_cords.1 == BOARD_START {
        new_board.white_queen_side_castle = false;
    } else if square_cords.0 == BOARD_START && square_cords.1 == BOARD_START {
        new_board.black_queen_side_castle = false;
    } else if square_cords.0 == BOARD_START && square_cords.1 == BOARD_END - 1 {
        new_board.black_king_side_castle = false;
    }
    // if the rook is captured, take away castling privileges
    if mov.0 == BOARD_END - 1 && mov.1 == BOARD_END - 1 {
        new_board.white_king_side_castle = false;
    } else if mov.0 == BOARD_END - 1 && mov.1 == BOARD_START {
        new_board.white_queen_side_castle = false;
    } else if mov.0 == BOARD_START && mov.1 == BOARD_START {
        new_board.black_queen_side_castle = false;
    } else if mov.0 == BOARD_START && mov.1 == BOARD_END - 1 {
        new_board.black_king_side_castle = false;
    }
}

/// Appends the positions produced for the move of `piece` from `from` to `mov`.
fn push_successors(
    piece: Piece,
    board: &BoardState,
    square_cords: Point,
    mov: Point,
    new_moves: &mut Vec<BoardState>,
    move_generation_mode: MoveGenerationMode,
)
    requires
        frame_ok(*board),
        kings_in_array(*board),
        on_board(square_cords),
        on_board(mov),
        on_board(king_location(*board, piece.color)),
    ensures
        final(new_moves)@ == old(new_moves)@ + successors(
            *board,
            piece,
            square_cords,
            mov,
            move_generation_mode,
        ),
{
    let ghost b = *board;
    let ghost before = new_moves@;
    let color = piece.color;
    let kind = piece.kind;
    let mut new_board = base_move(piece, board, square_cords, mov);
    // if you make your move, and you are in check, this move is not valid
    if is_check(&new_board, color) {
        proof {
            assert(new_moves@ =~= before + successors(b, piece, square_cords, mov, move_generation_mode));
        }
        return;
    }
    strip_rights(&mut new_board, piece, square_cords, mov);
    // checks if the pawn has moved two spaces, if it has it can be captured en passant, record the space *behind* the pawn ie the valid capture square
    if move_generation_mode == MoveGenerationMode::AllMoves {
        if kind == PieceKind::Pawn && (square_cords.0 == mov.0 + 2 || mov.0 == square_cords.0 + 2) {
            if color == PieceColor::White {
                new_board.pawn_double_move = Some(Point(mov.0 + 1, mov.1));
            } else {
                new_board.pawn_double_move = Some(Point(mov.0 - 1, mov.1));
            }
        } else {
            // the most recent move was not a double pawn move, unset any possibly existing pawn double move
            new_board.pawn_double_move = None;
        }
        // deal with pawn promotions
        if mov.0 == BOARD_START && color == PieceColor::White && kind == PieceKind::Pawn {
            promote_pawn(&new_board, PieceColor::White, square_cords, mov, new_moves);
        } else if mov.0 == BOARD_END - 1 && color == PieceColor::Black && kind == PieceKind::Pawn {
            promote_pawn(&new_board, PieceColor::Black, square_cords, mov, new_moves);
        } else {
            new_moves.push(new_board);
            proof {
                assert(new_moves@ =~= before + seq![new_board]);
            }
        }
    } else {
        new_moves.push(new_board);
        proof {
            assert(new_moves@ =~= before + seq![new_board]);
        }
    }
}

/// Appends the position produced by an en passant capture of the pawn `piece` on `from`.
fn push_en_passant(
    piece: Piece,
    board: &BoardState,
    square_cords: Point,
    new_moves: &mut Vec<BoardState>,
)
    requires
        frame_ok(*board),
        kings_in_array(*board),
        on_board(square_cords),
        on_board(king_location(*board, board.to_move)),
        board.pawn_double_move matches Some(p) ==> on_board(p),
    ensures
        final(new_moves)@ == old(new_moves)@ + en_passant_successors(*board, piece, square_cords),
{
    let ghost b = *board;
    let ghost before = new_moves@;
    let color = piece.color;
    if board.pawn_double_move.is_some() && piece.kind == PieceKind::Pawn {
        let en_passant = pawn_moves_en_passant(piece, square_cords.0, square_cords.1, board);
        if let Some(mov) = en_passant {
            let mut new_board = *board;
            new_board.last_move = Some((square_cords, mov));
            new_board.to_move = new_board.to_move.opposite();
            new_board.pawn_double_move = None;
            let ghost nb0 = new_board;
            new_board.board[mov.0][mov.1] = Square::Full(piece);
            let ghost nb1 = new_board;
            new_board.board[square_cords.0][square_cords.1] = Square::Empty;
            let ghost nb2 = new_board;
            let ghost behind: Point;
            if color == PieceColor::White {
                new_board.board[mov.0 + 1][mov.1] = Square::Empty;
                proof {
                    behind = Point((mov.0 + 1) as usize, mov.1);
                }
            } else {
                new_board.board[mov.0 - 1][mov.1] = Square::Empty;
                proof {
                    behind = Point((mov.0 - 1) as usize, mov.1);
                }
            }
            proof {
                assert(frame_ok(nb0)) by {
                    assert forall|r: int, c: int|
                        0 <= r < 12 && 0 <= c < 12 && !(BOARD_START <= r < BOARD_END && BOARD_START
                            <= c < BOARD_END) implies #[trigger] cell(nb0, r, c) == Square::Boundary by {
                        assert(cell(b, r, c) == Square::Boundary);
                    }
                }
                lemma_frame_with_square(nb0, mov, Square::Full(piece), nb1);
                lemma_frame_with_square(nb1, square_cords, Square::Empty, nb2);
                lemma_frame_with_square(nb2, behind, Square::Empty, new_board);
                assert(new_board =~= en_passant_successor(b, piece, square_cords, mov));
            }
            // if you make a move, and you do not end up in check, then this move is valid
            if !is_check(&new_board, board.to_move) {
                new_moves.push(new_board);
            }
        }
    }
    proof {
        assert(new_moves@ =~= before + en_passant_successors(b, piece, square_cords));
    }
}

/// What a position produced for `piece` on `from` shows of its move: it records a move from
/// `from`; a pawn changes row, a king goes at most one step, and any other piece stands on
/// the square it moved to.
pub open spec fn moved_from(piece: Piece, from: Point, s: BoardState) -> bool {
    match s.last_move {
        Some((f, t)) => {
            &&& f == from
            &&& piece.kind == PieceKind::Pawn ==> t.0 != from.0
            &&& piece.kind == PieceKind::King ==> within_one(t.0 - from.0) && within_one(t.1 - from.1)
            &&& piece.kind != PieceKind::Pawn && piece.kind != PieceKind::King ==> cell(
                s,
                t.0 as int,
                t.1 as int,
            ) == Square::Full(piece)
        },
        None => false,
    }
}

/// The en passant target, when there is one, is an empty square.
pub open spec fn en_passant_clear(b: BoardState) -> bool {
    b.pawn_double_move matches Some(p) ==> cell(b, p.0 as int, p.1 as int) == Square::Empty
}

/// A pawn's target leaves its row, a king's lies within one step, any other piece's differs
/// from its square.
proof fn lemma_target_shape(b: BoardState, piece: Piece, r: int, c: int, mode: MoveGenerationMode, p: Point)
    requires
        piece_target(b, piece, r, c, mode, p),
    ensures
        piece.kind == PieceKind::Pawn ==> p.0 != r,
        piece.kind == PieceKind::King ==> within_one(p.0 - r) && within_one(p.1 - c),
        piece.kind != PieceKind::Pawn && piece.kind != PieceKind::King ==> p.0 != r || p.1 != c,
{
    match piece.kind {
        PieceKind::Knight => {
            let i = choose|i: int|
                0 <= i < 8 && #[trigger] step_target(b, r, c, knight_dr(i), knight_dc(i), piece.color, mode, p);
        },
        PieceKind::King => {
            let (i, j) = choose|i: int, j: int|
                0 <= i < 3 && 0 <= j < 3 && #[trigger] step_target(b, r, c, i - 1, j - 1, piece.color, mode, p);
        },
        PieceKind::Pawn => {},
        _ => {
            assert forall|dr: int, dc: int|
                -1 <= dr <= 1 && -1 <= dc <= 1 && (dr != 0 || dc != 0) && #[trigger] slide_target(
                    b,
                    r,
                    c,
                    dr,
                    dc,
                    piece.color,
                    mode,
                    p,
                ) implies p.0 != r || p.1 != c by {
                let k = choose|k: int|
                    k >= 1 && clear_between(b, r, c, dr, dc, k) && p.0 == r + off(k, dr) && p.1 == c
                        + off(k, dc) && #[trigger] landable(cell(b, r + off(k, dr), c + off(k, dc)), piece.color, mode);
            }
        },
    }
}

/// Every position produced for the move of `piece` from `from` to `to` records that move, the
/// positions are distinct, and a piece other than a pawn stands on `to`.
#[verifier::spinoff_prover]
#[verifier::rlimit(40)]
proof fn lemma_successors_shape(b: BoardState, piece: Piece, from: Point, to: Point, mode: MoveGenerationMode)
    requires
        on_board(from),
        on_board(to),
        piece.kind != PieceKind::Pawn && piece.kind != PieceKind::King ==> from != to,
    ensures
        successors(b, piece, from, to, mode).no_duplicates(),
        forall|s: BoardState| #[trigger] successors(b, piece, from, to, mode).contains(s) ==> {
            &&& s.last_move == Some((from, to))
            &&& piece.kind != PieceKind::Pawn && piece.kind != PieceKind::King ==> cell(s, to.0 as int, to.1 as int) == Square::Full(piece)
        },
{
    let s0 = base_successor(b, piece, from, to);
    let seqs = successors(b, piece, from, to, mode);
    if piece.kind != PieceKind::Pawn && piece.kind != PieceKind::King {
        let inner = with_square(b.board, to.0 as int, to.1 as int, Square::Full(piece));
        assert(inner[to.0 as int][to.1 as int] == Square::Full(piece));
        assert(s0.board[to.0 as int][to.1 as int] == Square::Full(piece)) by {
            if to.0 == from.0 {
                assert(s0.board[to.0 as int]@ == inner[to.0 as int]@.update(from.1 as int, Square::Empty));
            }
        }
    }
    assert forall|s: BoardState| #[trigger] seqs.contains(s) implies {
        &&& s.last_move == Some((from, to))
        &&& piece.kind != PieceKind::Pawn && piece.kind != PieceKind::King ==> cell(s, to.0 as int, to.1 as int) == Square::Full(piece)
    } by {
        let i = choose|i: int| 0 <= i < seqs.len() && seqs[i] == s;
    }
    if !in_check(s0, piece.color) && mode == MoveGenerationMode::AllMoves && promotes(piece, to) {
        let s1 = rights_after(s0, piece, from, to);
        let s2 = BoardState { pawn_double_move: en_passant_after(piece, from, to), ..s1 };
        let ps = promotions(s2, piece.color, from, to);
        assert forall|i: int, j: int| 0 <= i < ps.len() && 0 <= j < ps.len() && i != j implies ps[i]
            != ps[j] by {
            assert(ps[i].pawn_promotion != ps[j].pawn_promotion);
        }
    }
}

/// The square a pawn on `from` captures en passant onto, when it may.
pub open spec fn ep_target(b: BoardState, piece: Piece, from: Point) -> Point {
    en_passant_square(b, piece, from.0 as int, from.1 as int)->0
}

/// The position produced by an en passant capture records a pawn's move off its row.
proof fn lemma_en_passant_shape(b: BoardState, piece: Piece, from: Point)
    ensures
        en_passant_successors(b, piece, from).no_duplicates(),
        forall|s: BoardState| #[trigger] en_passant_successors(b, piece, from).contains(s) ==> {
            &&& piece.kind == PieceKind::Pawn
            &&& en_passant_square(b, piece, from.0 as int, from.1 as int) is Some
            &&& s.last_move == Some((from, ep_target(b, piece, from)))
            &&& ep_target(b, piece, from).0 != from.0
        },
{
    let e = en_passant_successors(b, piece, from);
    assert forall|s: BoardState| #[trigger] e.contains(s) implies {
        &&& piece.kind == PieceKind::Pawn
        &&& en_passant_square(b, piece, from.0 as int, from.1 as int) is Some
        &&& s.last_move == Some((from, ep_target(b, piece, from)))
        &&& ep_target(b, piece, from).0 != from.0
    } by {
        let i = choose|i: int| 0 <= i < e.len() && e[i] == s;
    }
}

/// With an empty en passant target, a pawn's en passant square is none of its other targets.
proof fn lemma_en_passant_not_target(b: BoardState, piece: Piece, from: Point, mode: MoveGenerationMode)
    requires
        en_passant_clear(b),
        piece.kind == PieceKind::Pawn,
        en_passant_square(b, piece, from.0 as int, from.1 as int) is Some,
    ensures
        !piece_target(
            b,
            piece,
            from.0 as int,
            from.1 as int,
            mode,
            ep_target(b, piece, from),
        ),
{
}

/// The positions produced for the moves of `piece` from `from` to each of `targets`, in order.
pub open spec fn moves_along(
    b: BoardState,
    piece: Piece,
    from: Point,
    targets: Seq<Point>,
    mode: MoveGenerationMode,
) -> Seq<BoardState>
    decreases targets.len(),
{
    if targets.len() == 0 {
        Seq::empty()
    } else {
        moves_along(b, piece, from, targets.drop_last(), mode) + successors(
            b,
            piece,
            from,
            targets.last(),
            mode,
        )
    }
}

/// The positions produced for `piece` on `from`, in order: its moves to its target squares,
/// then its en passant capture.
pub open spec fn piece_moves(b: BoardState, piece: Piece, from: Point, mode: MoveGenerationMode) -> Seq<BoardState> {
    moves_along(b, piece, from, piece_list(b, piece, from.0 as int, from.1 as int, mode), mode)
        + en_passant_successors(b, piece, from)
}

/*
    Given the coordinates of a piece and that pieces color, generate all possible pseudo-legal moves for that piece
*/
#[verifier::spinoff_prover]
#[verifier::rlimit(60)]
pub fn generate_moves_for_piece(
    piece: Piece,
    board: &BoardState,
    square_cords: Point,
    new_moves: &mut Vec<BoardState>,
    move_generation_mode: MoveGenerationMode,
)
    requires
        frame_ok(*board),
        kings_in_array(*board),
        on_board(square_cords),
        on_board(king_location(*board, piece.color)),
        on_board(king_location(*board, board.to_move)),
        board.pawn_double_move matches Some(p) ==> on_board(p),
    ensures
        grows(old(new_moves)@, final(new_moves)@),
        forall|s: BoardState|
            #[trigger] appended(old(new_moves)@, final(new_moves)@).contains(s) <==> piece_successor(
                *board,
                piece,
                square_cords,
                move_generation_mode,
                s,
            ),
        forall|s: BoardState|
            #[trigger] appended(old(new_moves)@, final(new_moves)@).contains(s) ==> moved_from(
                piece,
                square_cords,
                s,
            ),
        en_passant_clear(*board) ==> appended(old(new_moves)@, final(new_moves)@).no_duplicates(),
        appended(old(new_moves)@, final(new_moves)@) == piece_moves(*board, piece, square_cords, move_generation_mode),
{
    let ghost n0 = new_moves@;
    let ghost b = *board;
    proof {
        lemma_grows_refl(n0);
    }
    let mut moves: Vec<Point> = Vec::new();
    get_moves(piece, square_cords.0, square_cords.1, board, &mut moves, move_generation_mode);
    proof {
        assert(appended(Seq::<Point>::empty(), moves@) =~= moves@);
    }
    let ghost targets = moves@;
    // make all the valid moves of this piece
    let mut idx: usize = 0;
    while idx < moves.len()
        invariant
            frame_ok(*board),
            kings_in_array(*board),
            on_board(square_cords),
            on_board(king_location(*board, piece.color)),
            board.pawn_double_move matches Some(p) ==> on_board(p),
            on_board(king_location(*board, board.to_move)),
            b == *board,
            idx <= moves.len(),
            forall|p: Point| #[trigger] moves@.contains(p) <==> piece_target(
                b,
                piece,
                square_cords.0 as int,
                square_cords.1 as int,
                move_generation_mode,
                p,
            ),
            targets == moves@,
            moves@.no_duplicates(),
            grows(n0, new_moves@),
            targets == piece_list(b, piece, square_cords.0 as int, square_cords.1 as int, move_generation_mode),
            appended(n0, new_moves@) == moves_along(b, piece, square_cords, moves@.take(idx as int), move_generation_mode),
            appended(n0, new_moves@).no_duplicates(),
            forall|s: BoardState|
                #[trigger] appended(n0, new_moves@).contains(s) ==> moved_from(piece, square_cords, s),
            forall|s: BoardState|
                #[trigger] appended(n0, new_moves@).contains(s) <==> exists|i: int|
                    0 <= i < idx && #[trigger] successors(b, piece, square_cords, moves@[i], move_generation_mode).contains(s),
        decreases moves.len() - idx,
    {
        let mov = moves[idx];
        let ghost before = new_moves@;
        proof {
            assert(moves@.contains(mov));
            lemma_target_on_board(b, piece, square_cords.0 as int, square_cords.1 as int, move_generation_mode, mov);
            lemma_target_shape(b, piece, square_cords.0 as int, square_cords.1 as int, move_generation_mode, mov);
            lemma_successors_shape(b, piece, square_cords, mov, move_generation_mode);
        }
        push_successors(piece, board, square_cords, mov, new_moves, move_generation_mode);
        proof {
            let pushed = successors(b, piece, square_cords, mov, move_generation_mode);
            lemma_grows_concat(before, pushed);
            lemma_grows_trans(n0, before, new_moves@);
            assert forall|s: BoardState| #[trigger] appended(n0, before).contains(s) implies !appended(
                before,
                new_moves@,
            ).contains(s) by {
                let i = choose|i: int|
                    0 <= i < idx && #[trigger] successors(b, piece, square_cords, moves@[i], move_generation_mode).contains(s);
                assert(moves@.contains(moves@[i]));
                lemma_target_on_board(b, piece, square_cords.0 as int, square_cords.1 as int, move_generation_mode, moves@[i]);
                lemma_target_shape(b, piece, square_cords.0 as int, square_cords.1 as int, move_generation_mode, moves@[i]);
                lemma_successors_shape(b, piece, square_cords, moves@[i], move_generation_mode);
            }
            lemma_grows_trans_distinct(n0, before, new_moves@);
            assert(moves@.take(idx + 1).drop_last() =~= moves@.take(idx as int));
            assert forall|s: BoardState| #[trigger] appended(n0, new_moves@).contains(s) implies moved_from(
                piece,
                square_cords,
                s,
            ) by {
                if pushed.contains(s) {
                    assert(s.last_move == Some((square_cords, mov)));
                }
            }
            assert forall|s: BoardState|
                #[trigger] appended(n0, new_moves@).contains(s) <==> exists|i: int|
                    0 <= i < idx + 1 && #[trigger] successors(b, piece, square_cords, moves@[i], move_generation_mode).contains(s) by {
                if pushed.contains(s) {
                    assert(successors(b, piece, square_cords, moves@[idx as int], move_generation_mode).contains(s));
                }
                if exists|i: int|
                    0 <= i < idx + 1 && #[trigger] successors(b, piece, square_cords, moves@[i], move_generation_mode).contains(s) {
                    let i = choose|i: int|
                        0 <= i < idx + 1 && #[trigger] successors(b, piece, square_cords, moves@[i], move_generation_mode).contains(s);
                    if i < idx {
                        assert(appended(n0, before).contains(s));
                    }
                }
            }
        }
        idx = idx + 1;
    }
    let ghost after_moves = new_moves@;
    proof {
        assert(moves@.take(moves@.len() as int) =~= moves@);
    }
    proof {
        assert forall|s: BoardState|
            #[trigger] appended(n0, after_moves).contains(s) <==> exists|to: Point|
                piece_target(b, piece, square_cords.0 as int, square_cords.1 as int, move_generation_mode, to)
                    && #[trigger] successors(b, piece, square_cords, to, move_generation_mode).contains(s) by {
            if appended(n0, after_moves).contains(s) {
                let i = choose|i: int|
                    0 <= i < moves@.len() && #[trigger] successors(b, piece, square_cords, moves@[i], move_generation_mode).contains(s);
                assert(moves@.contains(moves@[i]));
            }
            if exists|to: Point|
                piece_target(b, piece, square_cords.0 as int, square_cords.1 as int, move_generation_mode, to)
                    && #[trigger] successors(b, piece, square_cords, to, move_generation_mode).contains(s) {
                let to = choose|to: Point|
                    piece_target(b, piece, square_cords.0 as int, square_cords.1 as int, move_generation_mode, to)
                        && #[trigger] successors(b, piece, square_cords, to, move_generation_mode).contains(s);
                assert(moves@.contains(to));
                let i = choose|i: int| 0 <= i < moves@.len() && moves@[i] == to;
                assert(successors(b, piece, square_cords, moves@[i], move_generation_mode).contains(s));
            }
        }
    }
    // take care of en passant captures
    push_en_passant(piece, board, square_cords, new_moves);
    proof {
        let ep = en_passant_successors(b, piece, square_cords);
        lemma_grows_concat(after_moves, ep);
        lemma_grows_trans(n0, after_moves, new_moves@);
        lemma_en_passant_shape(b, piece, square_cords);
        if en_passant_clear(b) {
            assert forall|s: BoardState| #[trigger] appended(n0, after_moves).contains(s) implies !appended(
                after_moves,
                new_moves@,
            ).contains(s) by {
                if appended(after_moves, new_moves@).contains(s) {
                    let to = choose|to: Point|
                        piece_target(b, piece, square_cords.0 as int, square_cords.1 as int, move_generation_mode, to)
                            && #[trigger] successors(b, piece, square_cords, to, move_generation_mode).contains(s);
                    lemma_target_on_board(b, piece, square_cords.0 as int, square_cords.1 as int, move_generation_mode, to);
                    lemma_target_shape(b, piece, square_cords.0 as int, square_cords.1 as int, move_generation_mode, to);
                    lemma_successors_shape(b, piece, square_cords, to, move_generation_mode);
                    lemma_en_passant_not_target(b, piece, square_cords, move_generation_mode);
                }
            }
            lemma_grows_trans_distinct(n0, after_moves, new_moves@);
        }
    }
}

// ---------------------------------------------------------------------------------------
// Castling and the full move list.

/*
    Determine if castling is a legal move

    Rules
    1. The castling must be kingside or queen side.
    2. Neither the king nor the chosen rook has previously moved.
    3. There are no pieces between the king and the chosen rook.
    4. The king is not currently in check.
    5. The king does not pass through a square that is attacked by an enemy piece.
    6. The king does not end up in check. (True of any legal move.)

    The castling rights flags stand for rule 2: they are assumed to be cleared whenever the
    king or the rook concerned moves.
*/
pub open spec fn spec_can_castle(b: BoardState, t: CastlingType) -> bool {
    let e = |r: int, c: int| cell(b, r, c) == Square::Empty;
    match t {
        CastlingType::WhiteKingSide => b.white_king_side_castle && e(9, 7) && e(9, 8) && !in_check(
            b,
            PieceColor::White,
        ) && !attacked(b, PieceColor::White, Point(9, 7)) && !attacked(
            b,
            PieceColor::White,
            Point(9, 8),
        ),
        CastlingType::WhiteQueenSide => b.white_queen_side_castle && e(9, 3) && e(9, 4) && e(9, 5)
            && !in_check(b, PieceColor::White) && !attacked(b, PieceColor::White, Point(9, 5))
            && !attacked(b, PieceColor::White, Point(9, 4)),
        CastlingType::BlackKingSide => b.black_king_side_castle && e(2, 7) && e(2, 8) && !in_check(
            b,
            PieceColor::Black,
        ) && !attacked(b, PieceColor::Black, Point(2, 7)) && !attacked(
            b,
            PieceColor::Black,
            Point(2, 8),
        ),
        CastlingType::BlackQueenSide => b.black_queen_side_castle && e(2, 3) && e(2, 4) && e(2, 5)
            && !in_check(b, PieceColor::Black) && !attacked(b, PieceColor::Black, Point(2, 4))
            && !attacked(b, PieceColor::Black, Point(2, 5)),
    }
}

/// The color that a castling right belongs to.
pub open spec fn castling_color(t: CastlingType) -> PieceColor {
    match t {
        CastlingType::WhiteKingSide | CastlingType::WhiteQueenSide => PieceColor::White,
        _ => PieceColor::Black,
    }
}

/// The position after castling: king and rook on their new squares, both of the side's
/// rights given up, no en passant target.
pub open spec fn castle_successor(b: BoardState, t: CastlingType) -> BoardState {
    let color = castling_color(t);
    let row: int = if color == PieceColor::White { 9 } else { 2 };
    let king_side = t == CastlingType::WhiteKingSide || t == CastlingType::BlackKingSide;
    let rook_from: int = if king_side { 9 } else { 2 };
    let king_to: int = if king_side { 8 } else { 4 };
    let rook_to: int = if king_side { 7 } else { 5 };
    let board = with_square(
        with_square(
            with_square(with_square(b.board, row, 6, Square::Empty), row, rook_from, Square::Empty),
            row,
            king_to,
            Square::Full(Piece { color, kind: PieceKind::King }),
        ),
        row,
        rook_to,
        Square::Full(Piece { color, kind: PieceKind::Rook }),
    );
    let s = BoardState {
        to_move: b.to_move.spec_opposite(),
        pawn_double_move: None,
        board,
        last_move: Some((Point(row as usize, 6), Point(row as usize, king_to as usize))),
        ..b
    };
    if color == PieceColor::White {
        BoardState {
            white_king_side_castle: false,
            white_queen_side_castle: false,
            white_king_location: Point(9, king_to as usize),
            ..s
        }
    } else {
        BoardState {
            black_king_side_castle: false,
            black_queen_side_castle: false,
            black_king_location: Point(2, king_to as usize),
            ..s
        }
    }
}

/// The castling move of right `t`, if the side to move owns it, may castle, and is not in
/// check once castled.
pub open spec fn castle_option(b: BoardState, t: CastlingType) -> Seq<BoardState> {
    if b.to_move == castling_color(t) && spec_can_castle(b, t) && !in_check(castle_successor(b, t), castling_color(t)) {
        seq![castle_successor(b, t)]
    } else {
        Seq::empty()
    }
}

/// The castling moves of the side to move, in the order white king side, white queen side,
/// black king side, black queen side.
pub open spec fn castling_moves(b: BoardState) -> Seq<BoardState> {
    castle_option(b, CastlingType::WhiteKingSide) + castle_option(b, CastlingType::WhiteQueenSide)
        + castle_option(b, CastlingType::BlackKingSide) + castle_option(
        b,
        CastlingType::BlackQueenSide,
    )
}

pub fn can_castle(board: &BoardState, castling_type: &CastlingType) -> (r: bool)
    requires
        frame_ok(*board),
        kings_in_array(*board),
        on_board(king_location(*board, castling_color(*castling_type))),
    ensures
        r == spec_can_castle(*board, *castling_type),
{
    match castling_type {
        CastlingType::WhiteKingSide => can_castle_white_king_side(board),
        CastlingType::WhiteQueenSide => can_castle_white_queen_side(board),
        CastlingType::BlackKingSide => can_castle_black_king_side(board),
        CastlingType::BlackQueenSide => can_castle_black_queen_side(board),
    }
}

pub fn can_castle_white_king_side(board: &BoardState) -> (r: bool)
    requires
        frame_ok(*board),
        kings_in_array(*board),
        on_board(board.white_king_location),
    ensures
        r == spec_can_castle(*board, CastlingType::WhiteKingSide),
{
    if !board.white_king_side_castle {
        return false;
    }
    // check that squares required for castling are empty
    if !(board.board[BOARD_END - 1][BOARD_END - 3]).is_empty() || !(
    board.board[BOARD_END - 1][BOARD_END - 2]).is_empty() {
        return false;
    }
    // check that the king currently isn't in check
    if is_check(board, PieceColor::White) {
        return false;
    }
    //check that the squares required for castling are not threatened
    if is_check_cords(board, PieceColor::White, Point(BOARD_END - 1, BOARD_END - 3))
        || is_check_cords(board, PieceColor::White, Point(BOARD_END - 1, BOARD_END - 2)) {
        return false;
    }
    true
}

pub fn can_castle_white_queen_side(board: &BoardState) -> (r: bool)
    requires
        frame_ok(*board),
        kings_in_array(*board),
        on_board(board.white_king_location),
    ensures
        r == spec_can_castle(*board, CastlingType::WhiteQueenSide),
{
    if !board.white_queen_side_castle {
        return false;
    }
    // check that squares required for castling are empty
    if !(board.board[BOARD_END - 1][BOARD_START + 1]).is_empty() || !(
    board.board[BOARD_END - 1][BOARD_START + 2]).is_empty() || !(
    board.board[BOARD_END - 1][BOARD_START + 3]).is_empty() {
        return false;
    }
    // check that the king currently isn't in check
    if is_check(board, PieceColor::White) {
        return false;
    }
    //check that the squares required for castling are not threatened
    if is_check_cords(board, PieceColor::White, Point(BOARD_END - 1, BOARD_START + 3))
        || is_check_cords(board, PieceColor::White, Point(BOARD_END - 1, BOARD_START + 2)) {
        return false;
    }
    true
}

pub fn can_castle_black_king_side(board: &BoardState) -> (r: bool)
    requires
        frame_ok(*board),
        kings_in_array(*board),
        on_board(board.black_king_location),
    ensures
        r == spec_can_castle(*board, CastlingType::BlackKingSide),
{
    if !board.black_king_side_castle {
        return false;
    }
    // check that squares required for castling are empty
    if !(board.board[BOARD_START][BOARD_END - 3]).is_empty() || !(
    board.board[BOARD_START][BOARD_END - 2]).is_empty() {
        return false;
    }
    // check that the king currently isn't in check
    if is_check(board, PieceColor::Black) {
        return false;
    }
    //check that the squares required for castling are not threatened
    if is_check_cords(board, PieceColor::Black, Point(BOARD_START, BOARD_END - 3))
        || is_check_cords(board, PieceColor::Black, Point(BOARD_START, BOARD_END - 2)) {
        return false;
    }
    true
}

pub fn can_castle_black_queen_side(board: &BoardState) -> (r: bool)
    requires
        frame_ok(*board),
        kings_in_array(*board),
        on_board(board.black_king_location),
    ensures
        r == spec_can_castle(*board, CastlingType::BlackQueenSide),
{
    if !board.black_queen_side_castle {
        return false;
    }
    // check that squares required for castling are empty
    if !(board.board[BOARD_START][BOARD_START + 1]).is_empty() || !(
    board.board[BOARD_START][BOARD_START + 2]).is_empty() || !(
    board.board[BOARD_START][BOARD_START + 3]).is_empty() {
        return false;
    }
    // check that the king currently isn't in check
    if is_check(board, PieceColor::Black) {
        return false;
    }
    //check that the squares required for castling are not threatened
    if is_check_cords(board, PieceColor::Black, Point(BOARD_START, BOARD_START + 2))
        || is_check_cords(board, PieceColor::Black, Point(BOARD_START, BOARD_START + 3)) {
        return false;
    }
    true
}

/// Castling keeps the boundary and the kings' locations inside the array, and puts the
/// castling king on the playing area.
proof fn lemma_castle_successor_frame(b: BoardState, t: CastlingType)
    requires
        frame_ok(b),
        kings_in_array(b),
    ensures
        frame_ok(castle_successor(b, t)),
        kings_in_array(castle_successor(b, t)),
        on_board(king_location(castle_successor(b, t), castling_color(t))),
{
    let s = castle_successor(b, t);
    let color = castling_color(t);
    let row: int = if color == PieceColor::White { 9 } else { 2 };
    let king_side = t == CastlingType::WhiteKingSide || t == CastlingType::BlackKingSide;
    let rook_from: int = if king_side { 9 } else { 2 };
    let king_to: int = if king_side { 8 } else { 4 };
    let rook_to: int = if king_side { 7 } else { 5 };
    let w1 = with_square(b.board, row, 6, Square::Empty);
    let w2 = with_square(w1, row, rook_from, Square::Empty);
    let w3 = with_square(w2, row, king_to, Square::Full(Piece { color, kind: PieceKind::King }));
    lemma_frame_write(b.board, row, 6, Square::Empty, b);
    lemma_frame_write(w1, row, rook_from, Square::Empty, b);
    lemma_frame_write(w2, row, king_to, Square::Full(Piece { color, kind: PieceKind::King }), b);
    lemma_frame_write(w3, row, rook_to, Square::Full(Piece { color, kind: PieceKind::Rook }), b);
    lemma_frame_same_board(BoardState { board: s.board, ..b }, s);
}

/// Appends the castling move of right `t` when the side to move may castle that way.
fn push_castle(board: &BoardState, castling_type: CastlingType, new_moves: &mut Vec<BoardState>)
    requires
        frame_ok(*board),
        kings_in_array(*board),
        on_board(king_location(*board, board.to_move)),
    ensures
        final(new_moves)@ == old(new_moves)@ + castle_option(*board, castling_type),
{
    let ghost before = new_moves@;
    let color = if castling_type == CastlingType::WhiteKingSide || castling_type
        == CastlingType::WhiteQueenSide {
        PieceColor::White
    } else {
        PieceColor::Black
    };
    if board.to_move == color && can_castle(board, &castling_type) {
        let row = if color == PieceColor::White { BOARD_END - 1 } else { BOARD_START };
        let king_side = castling_type == CastlingType::WhiteKingSide || castling_type
            == CastlingType::BlackKingSide;
        let rook_from = if king_side { BOARD_END - 1 } else { BOARD_START };
        let king_to = if king_side { BOARD_END - 2 } else { BOARD_START + 2 };
        let rook_to = if king_side { BOARD_END - 3 } else { BOARD_START + 3 };
        let mut new_board = *board;
        new_board.to_move = new_board.to_move.opposite();
        new_board.pawn_double_move = None;
        if color == PieceColor::White {
            new_board.white_king_side_castle = false;
            new_board.white_queen_side_castle = false;
            new_board.white_king_location = Point(row, king_to);
        } else {
            new_board.black_king_side_castle = false;
            new_board.black_queen_side_castle = false;
            new_board.black_king_location = Point(row, king_to);
        }
        new_board.board[row][BOARD_START + 4] = Square::Empty;
        new_board.board[row][rook_from] = Square::Empty;
        new_board.board[row][king_to] = Square::Full(Piece::king(color));
        new_board.board[row][rook_to] = Square::Full(Piece::rook(color));
        new_board.last_move = Some((Point(row, BOARD_START + 4), Point(row, king_to)));
        proof {
            assert(new_board =~= castle_successor(*board, castling_type));
            lemma_castle_successor_frame(*board, castling_type);
        }
        // castling must not leave the king in check either
        if !is_check(&new_board, color) {
            new_moves.push(new_board);
        }
    }
    proof {
        assert(new_moves@ =~= before + castle_option(*board, castling_type));
    }
}

/*
    Given the current board, attempt to castle
    If castling is possible add the move the the list of possible moves
    Will also update appropriate castling variables if castling was successful
*/
pub fn generate_castling_moves(board: &BoardState, new_moves: &mut Vec<BoardState>)
    requires
        frame_ok(*board),
        kings_in_array(*board),
        on_board(king_location(*board, board.to_move)),
    ensures
        final(new_moves)@ == old(new_moves)@ + castling_moves(*board),
{
    let ghost before = new_moves@;
    push_castle(board, CastlingType::WhiteKingSide, new_moves);
    push_castle(board, CastlingType::WhiteQueenSide, new_moves);
    push_castle(board, CastlingType::BlackKingSide, new_moves);
    push_castle(board, CastlingType::BlackQueenSide, new_moves);
    proof {
        assert(new_moves@ =~= before + castling_moves(*board));
    }
}

/// The square a recorded move started from.
pub open spec fn origin(s: BoardState) -> Point {
    match s.last_move {
        Some((f, _t)) => f,
        None => Point(0, 0),
    }
}

/// What a castling position shows of its move: the king went two columns along its row
/// from the e-file, and stands where it went.
pub open spec fn castle_shape(s: BoardState) -> bool {
    match s.last_move {
        Some((f, t)) => {
            &&& f.1 == 6
            &&& t.0 == f.0
            &&& t.1 == 4 || t.1 == 8
            &&& cell(s, t.0 as int, t.1 as int) is Full
            &&& cell(s, t.0 as int, t.1 as int)->0.kind == PieceKind::King
        },
        None => false,
    }
}

/// The move recorded by castling with right `t`.
pub open spec fn castle_move(t: CastlingType) -> (Point, Point) {
    match t {
        CastlingType::WhiteKingSide => (Point(9, 6), Point(9, 8)),
        CastlingType::WhiteQueenSide => (Point(9, 6), Point(9, 4)),
        CastlingType::BlackKingSide => (Point(2, 6), Point(2, 8)),
        CastlingType::BlackQueenSide => (Point(2, 6), Point(2, 4)),
    }
}

proof fn lemma_castle_shape(b: BoardState, t: CastlingType)
    ensures
        castle_successor(b, t).last_move == Some(castle_move(t)),
        castle_shape(castle_successor(b, t)),
{
    let s = castle_successor(b, t);
    let color = castling_color(t);
    let row: int = if color == PieceColor::White { 9 } else { 2 };
    let king_side = t == CastlingType::WhiteKingSide || t == CastlingType::BlackKingSide;
    let rook_from: int = if king_side { 9 } else { 2 };
    let king_to: int = if king_side { 8 } else { 4 };
    let rook_to: int = if king_side { 7 } else { 5 };
    let w1 = with_square(b.board, row, 6, Square::Empty);
    let w2 = with_square(w1, row, rook_from, Square::Empty);
    let w3 = with_square(w2, row, king_to, Square::Full(Piece { color, kind: PieceKind::King }));
    assert(w3[row][king_to] == Square::Full(Piece { color, kind: PieceKind::King }));
    assert(s.board[row]@ == w3[row]@.update(rook_to, Square::Full(Piece { color, kind: PieceKind::Rook })));
    assert(s.board[row][king_to] == Square::Full(Piece { color, kind: PieceKind::King }));
}

/// The castling moves are distinct, and each shows the shape of a castling move.
proof fn lemma_castling_shape(b: BoardState)
    ensures
        castling_moves(b).no_duplicates(),
        forall|s: BoardState| #[trigger] castling_moves(b).contains(s) ==> castle_shape(s),
{
    let a = castle_option(b, CastlingType::WhiteKingSide);
    let bb = castle_option(b, CastlingType::WhiteQueenSide);
    let cc = castle_option(b, CastlingType::BlackKingSide);
    let d = castle_option(b, CastlingType::BlackQueenSide);
    let c = castling_moves(b);
    assert(c == a + bb + cc + d);
    lemma_castle_shape(b, CastlingType::WhiteKingSide);
    lemma_castle_shape(b, CastlingType::WhiteQueenSide);
    lemma_castle_shape(b, CastlingType::BlackKingSide);
    lemma_castle_shape(b, CastlingType::BlackQueenSide);
    // the castling right each position of the list comes from
    let which = |i: int|
        if i < a.len() {
            CastlingType::WhiteKingSide
        } else if i < a.len() + bb.len() {
            CastlingType::WhiteQueenSide
        } else if i < a.len() + bb.len() + cc.len() {
            CastlingType::BlackKingSide
        } else {
            CastlingType::BlackQueenSide
        };
    assert forall|i: int| 0 <= i < c.len() implies #[trigger] c[i] == castle_successor(b, which(i)) by {
        if i < a.len() {
            assert(c[i] == a[i]);
        } else if i < a.len() + bb.len() {
            assert(c[i] == bb[i - a.len()]);
        } else if i < a.len() + bb.len() + cc.len() {
            assert(c[i] == cc[i - a.len() - bb.len()]);
        } else {
            assert(c[i] == d[i - a.len() - bb.len() - cc.len()]);
        }
    }
    assert forall|i: int, j: int| 0 <= i < c.len() && 0 <= j < c.len() && i != j implies c[i] != c[j] by {
        assert(c[i] == castle_successor(b, which(i)));
        assert(c[j] == castle_successor(b, which(j)));
        assert(which(i) != which(j));
        assert(castle_move(which(i)) != castle_move(which(j)));
    }
    assert forall|s: BoardState| #[trigger] c.contains(s) implies castle_shape(s) by {
        let i = choose|i: int| 0 <= i < c.len() && c[i] == s;
        assert(c[i] == castle_successor(b, which(i)));
    }
}

/// The conditions move generation relies on: the boundary around the playing area, the kings'
/// recorded locations inside the padded array, and an en passant target on the playing area.
pub open spec fn well_formed(b: BoardState) -> bool {
    &&& frame_ok(b)
    &&& kings_in_array(b)
    &&& b.pawn_double_move matches Some(p) ==> on_board(p)
}

/// Whether `s` is one of the positions generated from `b`: a move of one of the mover's
/// pieces that does not leave the mover in check, or (all moves only) a castling move.
pub open spec fn generated(b: BoardState, mode: MoveGenerationMode, s: BoardState) -> bool {
    ||| exists|from: Point|
        on_board(from) && cell(b, from.0 as int, from.1 as int) is Full && cell(
            b,
            from.0 as int,
            from.1 as int,
        )->0.color == b.to_move && #[trigger] piece_successor(
            b,
            cell(b, from.0 as int, from.1 as int)->0,
            from,
            mode,
            s,
        )
    ||| mode == MoveGenerationMode::AllMoves && castling_moves(b).contains(s)
}

/// The positions produced for the piece on (`i`, `j`), if it belongs to the side to move.
pub open spec fn square_moves(b: BoardState, mode: MoveGenerationMode, i: int, j: int) -> Seq<BoardState> {
    let sq = cell(b, i, j);
    if sq is Full && sq->0.color == b.to_move {
        piece_moves(b, sq->0, Point(i as usize, j as usize), mode)
    } else {
        Seq::empty()
    }
}

/// The positions produced for the pieces of the first `i` rows of the playing area, then of
/// the first `j` squares of the next row, row by row from the top, left to right.
pub open spec fn board_moves(b: BoardState, mode: MoveGenerationMode, i: nat, j: nat) -> Seq<BoardState>
    decreases i, j,
{
    if j > 0 {
        board_moves(b, mode, i, (j - 1) as nat) + square_moves(b, mode, 2 + i as int, 2 + j - 1)
    } else if i > 0 {
        board_moves(b, mode, (i - 1) as nat, 8)
    } else {
        Seq::empty()
    }
}

/// The generated positions in order: the moves of the pieces square by square, then (all
/// moves only) castling.
pub open spec fn move_list(b: BoardState, mode: MoveGenerationMode) -> Seq<BoardState> {
    board_moves(b, mode, 7, 8) + if mode == MoveGenerationMode::AllMoves {
        castling_moves(b)
    } else {
        Seq::empty()
    }
}

/// The positions reachable from `b` by one generated move.
pub open spec fn successor_set(b: BoardState, mode: MoveGenerationMode) -> Set<BoardState> {
    Set::new(|s: BoardState| generated(b, mode, s))
}

/*
    Generate all possible *legal* moves from the given board
    Also sets appropriate variables for the board state
*/
#[verifier::spinoff_prover]
#[verifier::rlimit(60)]
pub fn generate_moves(board: &BoardState, move_gen_mode: MoveGenerationMode) -> (r: Vec<BoardState>)
    requires
        well_formed(*board),
        on_board(king_location(*board, board.to_move)),
    ensures
        forall|s: BoardState| #[trigger] r@.contains(s) <==> generated(*board, move_gen_mode, s),
        en_passant_clear(*board) ==> r@.no_duplicates(),
        en_passant_clear(*board) ==> r@.len() == successor_set(*board, move_gen_mode).len(),
        r@ == move_list(*board, move_gen_mode),
{
    let ghost b = *board;
    //usually there is at minimum 16 moves in a position, so it make sense to preallocate some space to avoid excessive reallocations
    let mut new_moves: Vec<BoardState> = Vec::with_capacity(16);
    let ghost n0 = new_moves@;
    proof {
        lemma_grows_refl(n0);
    }
    for i in BOARD_START..BOARD_END
        invariant
            well_formed(*board),
            on_board(king_location(*board, board.to_move)),
            b == *board,
            n0 == Seq::<BoardState>::empty(),
            grows(n0, new_moves@),
            appended(n0, new_moves@) == board_moves(b, move_gen_mode, (i - 2) as nat, 0),
            en_passant_clear(b) ==> appended(n0, new_moves@).no_duplicates(),
            forall|s: BoardState|
                #[trigger] appended(n0, new_moves@).contains(s) ==> on_board(origin(s)) && origin(s).0
                    < i && cell(b, origin(s).0 as int, origin(s).1 as int) is Full && moved_from(
                    cell(b, origin(s).0 as int, origin(s).1 as int)->0,
                    origin(s),
                    s,
                ),
            forall|s: BoardState|
                #[trigger] appended(n0, new_moves@).contains(s) <==> exists|from: Point|
                    on_board(from) && from.0 < i && cell(b, from.0 as int, from.1 as int) is Full
                        && cell(b, from.0 as int, from.1 as int)->0.color == b.to_move
                        && #[trigger] piece_successor(
                        b,
                        cell(b, from.0 as int, from.1 as int)->0,
                        from,
                        move_gen_mode,
                        s,
                    ),
    {
        for j in BOARD_START..BOARD_END
            invariant
                well_formed(*board),
                on_board(king_location(*board, board.to_move)),
                b == *board,
                BOARD_START <= i < BOARD_END,
                grows(n0, new_moves@),
                appended(n0, new_moves@) == board_moves(b, move_gen_mode, (i - 2) as nat, (j - 2) as nat),
                en_passant_clear(b) ==> appended(n0, new_moves@).no_duplicates(),
                forall|s: BoardState|
                    #[trigger] appended(n0, new_moves@).contains(s) ==> on_board(origin(s)) && (origin(
                        s,
                    ).0 < i || (origin(s).0 == i && origin(s).1 < j)) && cell(
                        b,
                        origin(s).0 as int,
                        origin(s).1 as int,
                    ) is Full && moved_from(
                        cell(b, origin(s).0 as int, origin(s).1 as int)->0,
                        origin(s),
                        s,
                    ),
                forall|s: BoardState|
                    #[trigger] appended(n0, new_moves@).contains(s) <==> exists|from: Point|
                        on_board(from) && (from.0 < i || (from.0 == i && from.1 < j)) && cell(
                            b,
                            from.0 as int,
                            from.1 as int,
                        ) is Full && cell(b, from.0 as int, from.1 as int)->0.color == b.to_move
                            && #[trigger] piece_successor(
                            b,
                            cell(b, from.0 as int, from.1 as int)->0,
                            from,
                            move_gen_mode,
                            s,
                        ),
        {
            let ghost before = new_moves@;
            let here = Point(i, j);
            if let Square::Full(piece) = board.board[i][j] {
                if piece.color == board.to_move {
                    generate_moves_for_piece(piece, board, here, &mut new_moves, move_gen_mode);
                } else {
                    proof {
                        lemma_grows_refl(before);
                    }
                }
            } else {
                proof {
                    lemma_grows_refl(before);
                }
            }
            proof {
                lemma_grows_trans(n0, before, new_moves@);
                assert(appended(before, new_moves@) == square_moves(b, move_gen_mode, i as int, j as int));
                assert forall|s: BoardState| #[trigger] appended(before, new_moves@).contains(s) implies origin(s)
                    == here && cell(b, here.0 as int, here.1 as int) is Full && moved_from(
                    cell(b, here.0 as int, here.1 as int)->0,
                    here,
                    s,
                ) by {}
                if en_passant_clear(b) {
                    assert forall|s: BoardState| #[trigger] appended(n0, before).contains(s) implies !appended(
                        before,
                        new_moves@,
                    ).contains(s) by {}
                    lemma_grows_trans_distinct(n0, before, new_moves@);
                }
                assert forall|s: BoardState|
                    #[trigger] appended(n0, new_moves@).contains(s) <==> exists|from: Point|
                        on_board(from) && (from.0 < i || (from.0 == i && from.1 < j + 1)) && cell(
                            b,
                            from.0 as int,
                            from.1 as int,
                        ) is Full && cell(b, from.0 as int, from.1 as int)->0.color == b.to_move
                            && #[trigger] piece_successor(
                            b,
                            cell(b, from.0 as int, from.1 as int)->0,
                            from,
                            move_gen_mode,
                            s,
                        ) by {
                    if appended(before, new_moves@).contains(s) {
                        assert(piece_successor(
                            b,
                            cell(b, here.0 as int, here.1 as int)->0,
                            here,
                            move_gen_mode,
                            s,
                        ));
                    }
                    if exists|from: Point|
                        on_board(from) && (from.0 < i || (from.0 == i && from.1 < j + 1)) && cell(
                            b,
                            from.0 as int,
                            from.1 as int,
                        ) is Full && cell(b, from.0 as int, from.1 as int)->0.color == b.to_move
                            && #[trigger] piece_successor(
                            b,
                            cell(b, from.0 as int, from.1 as int)->0,
                            from,
                            move_gen_mode,
                            s,
                        ) {
                        let from = choose|from: Point|
                            on_board(from) && (from.0 < i || (from.0 == i && from.1 < j + 1)) && cell(
                                b,
                                from.0 as int,
                                from.1 as int,
                            ) is Full && cell(b, from.0 as int, from.1 as int)->0.color == b.to_move
                                && #[trigger] piece_successor(
                                b,
                                cell(b, from.0 as int, from.1 as int)->0,
                                from,
                                move_gen_mode,
                                s,
                            );
                        if from == here {
                            assert(appended(before, new_moves@).contains(s));
                        } else {
                            assert(appended(n0, before).contains(s));
                        }
                    }
                }
            }
        }
    }
    let ghost after_pieces = new_moves@;
    if move_gen_mode == MoveGenerationMode::AllMoves {
        generate_castling_moves(board, &mut new_moves);
        proof {
            lemma_grows_concat(after_pieces, castling_moves(b));
            lemma_grows_trans(n0, after_pieces, new_moves@);
            lemma_castling_shape(b);
            if en_passant_clear(b) {
                assert forall|s: BoardState| #[trigger] appended(n0, after_pieces).contains(s) implies !appended(
                    after_pieces,
                    new_moves@,
                ).contains(s) by {
                    if castling_moves(b).contains(s) {
                        assert(castle_shape(s));
                    }
                }
                lemma_grows_trans_distinct(n0, after_pieces, new_moves@);
            }
        }
    } else {
        proof {
            lemma_grows_refl(after_pieces);
            lemma_grows_trans(n0, after_pieces, new_moves@);
            if en_passant_clear(b) {
                lemma_grows_trans_distinct(n0, after_pieces, new_moves@);
            }
        }
    }
    proof {
        assert(appended(n0, new_moves@) =~= new_moves@);
        assert forall|s: BoardState| #[trigger] new_moves@.contains(s) <==> generated(b, move_gen_mode, s) by {
            assert(appended(n0, new_moves@).contains(s) == new_moves@.contains(s));
            if exists|from: Point|
                on_board(from) && cell(b, from.0 as int, from.1 as int) is Full && cell(
                    b,
                    from.0 as int,
                    from.1 as int,
                )->0.color == b.to_move && #[trigger] piece_successor(
                    b,
                    cell(b, from.0 as int, from.1 as int)->0,
                    from,
                    move_gen_mode,
                    s,
                ) {
                let from = choose|from: Point|
                    on_board(from) && cell(b, from.0 as int, from.1 as int) is Full && cell(
                        b,
                        from.0 as int,
                        from.1 as int,
                    )->0.color == b.to_move && #[trigger] piece_successor(
                        b,
                        cell(b, from.0 as int, from.1 as int)->0,
                        from,
                        move_gen_mode,
                        s,
                    );
                assert(appended(n0, after_pieces).contains(s));
            }
        }
    }
    proof {
        if en_passant_clear(b) {
            new_moves@.unique_seq_to_set();
            assert(new_moves@.to_set() =~= successor_set(b, move_gen_mode));
        }
    }
    new_moves
}

/// Both kings' recorded locations lie on the playing area.
pub open spec fn kings_on_board(b: BoardState) -> bool {
    on_board(b.white_king_location) && on_board(b.black_king_location)
}

/// A board with the same cells as `b` keeps `b`'s boundary.
pub proof fn lemma_frame_same_board(b: BoardState, nb: BoardState)
    requires
        frame_ok(b),
        nb.board == b.board,
    ensures
        frame_ok(nb),
{
    assert forall|r: int, c: int|
        0 <= r < 12 && 0 <= c < 12 && !(BOARD_START <= r < BOARD_END && BOARD_START <= c
            < BOARD_END) implies #[trigger] cell(nb, r, c) == Square::Boundary by {
        assert(cell(b, r, c) == Square::Boundary);
    }
}

/// Writing a cell of the playing area keeps the boundary of a bare board.
proof fn lemma_frame_write(b: [[Square; 12]; 12], r: int, c: int, x: Square, s: BoardState)
    requires
        frame_ok(BoardState { board: b, ..s }),
        BOARD_START <= r < BOARD_END,
        BOARD_START <= c < BOARD_END,
    ensures
        frame_ok(BoardState { board: with_square(b, r, c, x), ..s }),
{
    lemma_frame_with_square(
        BoardState { board: b, ..s },
        Point(r as usize, c as usize),
        x,
        BoardState { board: with_square(b, r, c, x), ..s },
    );
}

/// The en passant target recorded after a pawn's double step lies on the playing area.
proof fn lemma_en_passant_after_on_board(
    b: BoardState,
    piece: Piece,
    from: Point,
    to: Point,
    mode: MoveGenerationMode,
)
    requires
        on_board(from),
        on_board(to),
        piece_target(b, piece, from.0 as int, from.1 as int, mode, to),
    ensures
        en_passant_after(piece, from, to) matches Some(p) ==> on_board(p),
{
    if piece.kind == PieceKind::Pawn {
        assert(pawn_target(b, from.0 as int, from.1 as int, piece.color, mode, to));
    }
}

/// Every position produced for one move keeps the conditions move generation relies on, and
/// keeps both kings on the playing area.
#[verifier::spinoff_prover]
#[verifier::rlimit(40)]
proof fn lemma_successors_well_formed(
    b: BoardState,
    piece: Piece,
    from: Point,
    to: Point,
    mode: MoveGenerationMode,
    s: BoardState,
)
    requires
        well_formed(b),
        kings_on_board(b),
        on_board(from),
        on_board(to),
        piece_target(b, piece, from.0 as int, from.1 as int, mode, to),
        successors(b, piece, from, to, mode).contains(s),
    ensures
        well_formed(s),
        kings_on_board(s),
{
    let s0 = base_successor(b, piece, from, to);
    let b1 = with_square(b.board, to.0 as int, to.1 as int, Square::Full(piece));
    lemma_frame_write(b.board, to.0 as int, to.1 as int, Square::Full(piece), b);
    lemma_frame_write(b1, from.0 as int, from.1 as int, Square::Empty, b);
    lemma_frame_same_board(BoardState { board: moved_board(b.board, piece, from, to), ..b }, s0);
    let s1 = rights_after(s0, piece, from, to);
    lemma_frame_same_board(s0, s1);
    let s2 = BoardState { pawn_double_move: en_passant_after(piece, from, to), ..s1 };
    lemma_frame_same_board(s1, s2);
    lemma_en_passant_after_on_board(b, piece, from, to, mode);
    if mode == MoveGenerationMode::AllMoves && promotes(piece, to) {
        let ps = promotions(s2, piece.color, from, to);
        let i = choose|i: int| 0 <= i < ps.len() && ps[i] == s;
        let kind = if i == 0 {
            PieceKind::Queen
        } else if i == 1 {
            PieceKind::Knight
        } else if i == 2 {
            PieceKind::Bishop
        } else {
            PieceKind::Rook
        };
        assert(s == promoted(s2, piece.color, from, to, kind));
        lemma_frame_with_square(s2, to, Square::Full(Piece { color: piece.color, kind }), s);
    } else if mode == MoveGenerationMode::AllMoves {
        assert(s == s2);
    } else {
        assert(s == s1);
    }
}

/// Every position produced by castling keeps the conditions move generation relies on, and
/// keeps both kings on the playing area.
#[verifier::spinoff_prover]
#[verifier::rlimit(30)]
proof fn lemma_castling_well_formed(b: BoardState, s: BoardState)
    requires
        well_formed(b),
        kings_on_board(b),
        castling_moves(b).contains(s),
    ensures
        well_formed(s),
        kings_on_board(s),
{
    let ts = seq![
        CastlingType::WhiteKingSide,
        CastlingType::WhiteQueenSide,
        CastlingType::BlackKingSide,
        CastlingType::BlackQueenSide,
    ];
    let t = if castle_option(b, CastlingType::WhiteKingSide).contains(s) {
        CastlingType::WhiteKingSide
    } else if castle_option(b, CastlingType::WhiteQueenSide).contains(s) {
        CastlingType::WhiteQueenSide
    } else if castle_option(b, CastlingType::BlackKingSide).contains(s) {
        CastlingType::BlackKingSide
    } else {
        CastlingType::BlackQueenSide
    };
    assert(castle_option(b, t).contains(s)) by {
        let c = castling_moves(b);
        let i = choose|i: int| 0 <= i < c.len() && c[i] == s;
        let a = castle_option(b, CastlingType::WhiteKingSide);
        let bb = castle_option(b, CastlingType::WhiteQueenSide);
        let cc = castle_option(b, CastlingType::BlackKingSide);
        let d = castle_option(b, CastlingType::BlackQueenSide);
        assert(c == a + bb + cc + d);
        if i < a.len() {
            assert(a[i] == s);
        } else if i < a.len() + bb.len() {
            assert(bb[i - a.len()] == s);
        } else if i < a.len() + bb.len() + cc.len() {
            assert(cc[i - a.len() - bb.len()] == s);
        } else {
            assert(d[i - a.len() - bb.len() - cc.len()] == s);
        }
    }
    assert(s == castle_successor(b, t));
    let color = castling_color(t);
    let row: int = if color == PieceColor::White { 9 } else { 2 };
    let king_side = t == CastlingType::WhiteKingSide || t == CastlingType::BlackKingSide;
    let rook_from: int = if king_side { 9 } else { 2 };
    let king_to: int = if king_side { 8 } else { 4 };
    let rook_to: int = if king_side { 7 } else { 5 };
    let w1 = with_square(b.board, row, 6, Square::Empty);
    let w2 = with_square(w1, row, rook_from, Square::Empty);
    let w3 = with_square(w2, row, king_to, Square::Full(Piece { color, kind: PieceKind::King }));
    lemma_frame_write(b.board, row, 6, Square::Empty, b);
    lemma_frame_write(w1, row, rook_from, Square::Empty, b);
    lemma_frame_write(w2, row, king_to, Square::Full(Piece { color, kind: PieceKind::King }), b);
    lemma_frame_write(w3, row, rook_to, Square::Full(Piece { color, kind: PieceKind::Rook }), b);
    lemma_frame_same_board(BoardState { board: s.board, ..b }, s);
}

/// Every generated position keeps the conditions move generation relies on and keeps both
/// kings on the playing area, so move generation can be applied to it in turn.
pub proof fn lemma_generated_well_formed(b: BoardState, mode: MoveGenerationMode, s: BoardState)
    requires
        well_formed(b),
        kings_on_board(b),
        generated(b, mode, s),
    ensures
        well_formed(s),
        kings_on_board(s),
{
    if mode == MoveGenerationMode::AllMoves && castling_moves(b).contains(s) {
        lemma_castling_well_formed(b, s);
    } else {
        let from = choose|from: Point|
            on_board(from) && cell(b, from.0 as int, from.1 as int) is Full && cell(
                b,
                from.0 as int,
                from.1 as int,
            )->0.color == b.to_move && #[trigger] piece_successor(
                b,
                cell(b, from.0 as int, from.1 as int)->0,
                from,
                mode,
                s,
            );
        let piece = cell(b, from.0 as int, from.1 as int)->0;
        if en_passant_successors(b, piece, from).contains(s) {
            let to = en_passant_square(b, piece, from.0 as int, from.1 as int)->0;
            let behind = if piece.color == PieceColor::White { to.0 + 1 } else { to.0 - 1 };
            let b1 = with_square(b.board, to.0 as int, to.1 as int, Square::Full(piece));
            let b2 = with_square(b1, from.0 as int, from.1 as int, Square::Empty);
            lemma_frame_write(b.board, to.0 as int, to.1 as int, Square::Full(piece), b);
            lemma_frame_write(b1, from.0 as int, from.1 as int, Square::Empty, b);
            lemma_frame_write(b2, behind, to.1 as int, Square::Empty, b);
            lemma_frame_same_board(BoardState { board: s.board, ..b }, s);
        } else {
            let to = choose|to: Point|
                piece_target(b, piece, from.0 as int, from.1 as int, mode, to) && #[trigger] successors(
                    b,
                    piece,
                    from,
                    to,
                    mode,
                ).contains(s);
            lemma_target_on_board(b, piece, from.0 as int, from.1 as int, mode, to);
            lemma_successors_well_formed(b, piece, from, to, mode, s);
        }
    }
}

/// Moving a piece leaves every other cell as it was.
proof fn lemma_moved_board_other(bd: [[Square; 12]; 12], piece: Piece, from: Point, to: Point, r: int, c: int)
    requires
        in_array(from),
        in_array(to),
        0 <= r < 12,
        0 <= c < 12,
        r != from.0 || c != from.1,
        r != to.0 || c != to.1,
    ensures
        moved_board(bd, piece, from, to)[r][c] == bd[r][c],
{
    let b1 = with_square(bd, to.0 as int, to.1 as int, Square::Full(piece));
    let b2 = moved_board(bd, piece, from, to);
    if r == to.0 {
        assert(b1[r]@ == bd[r]@.update(to.1 as int, Square::Full(piece)));
    }
    if r == from.0 {
        assert(b2[r]@ == b1[r]@.update(from.1 as int, Square::Empty));
    }
}

/// When only captures are generated, every target holds a piece.
proof fn lemma_capture_target_full(b: BoardState, piece: Piece, r: int, c: int, to: Point)
    requires
        piece_target(b, piece, r, c, MoveGenerationMode::CapturesOnly, to),
    ensures
        cell(b, to.0 as int, to.1 as int) is Full,
{
    let mode = MoveGenerationMode::CapturesOnly;
    if piece.kind == PieceKind::Knight {
        let k = choose|k: int| 0 <= k < 8 && #[trigger] step_target(b, r, c, knight_dr(k), knight_dc(k), piece.color, mode, to);
    } else if piece.kind == PieceKind::King {
        let (k, l) = choose|k: int, l: int| 0 <= k < 3 && 0 <= l < 3 && #[trigger] step_target(b, r, c, k - 1, l - 1, piece.color, mode, to);
    } else if piece.kind != PieceKind::Pawn {
        assert forall|dr: int, dc: int| #[trigger] slide_target(b, r, c, dr, dc, piece.color, mode, to) implies cell(
            b,
            to.0 as int,
            to.1 as int,
        ) is Full by {
            let k = choose|k: int|
                k >= 1 && clear_between(b, r, c, dr, dc, k) && to.0 == r + off(k, dr) && to.1 == c + off(k, dc)
                    && #[trigger] landable(cell(b, r + off(k, dr), c + off(k, dc)), piece.color, mode);
        }
    }
}

/// The position produced for one move keeps its en passant target, if any, on an empty square.
proof fn lemma_successor_keeps_en_passant_clear(
    b: BoardState,
    piece: Piece,
    from: Point,
    to: Point,
    mode: MoveGenerationMode,
    s: BoardState,
)
    requires
        well_formed(b),
        en_passant_clear(b),
        on_board(from),
        on_board(to),
        cell(b, from.0 as int, from.1 as int) is Full,
        piece_target(b, piece, from.0 as int, from.1 as int, mode, to),
        successors(b, piece, from, to, mode).contains(s),
    ensures
        en_passant_clear(s),
{
    let seqs = successors(b, piece, from, to, mode);
    let i = choose|i: int| 0 <= i < seqs.len() && seqs[i] == s;
    if mode == MoveGenerationMode::AllMoves {
        if !promotes(piece, to) {
            if let Some(p) = en_passant_after(piece, from, to) {
                assert(pawn_target(b, from.0 as int, from.1 as int, piece.color, mode, to));
                lemma_moved_board_other(b.board, piece, from, to, p.0 as int, p.1 as int);
            }
        }
    } else {
        if let Some(e) = b.pawn_double_move {
            lemma_capture_target_full(b, piece, from.0 as int, from.1 as int, to);
            lemma_moved_board_other(b.board, piece, from, to, e.0 as int, e.1 as int);
        }
    }
}

/// A generated position keeps its en passant target, if any, on an empty square: the square
/// a pawn passed over on its double step is empty.
pub proof fn lemma_generated_keeps_en_passant_clear(b: BoardState, mode: MoveGenerationMode, s: BoardState)
    requires
        well_formed(b),
        kings_on_board(b),
        en_passant_clear(b),
        generated(b, mode, s),
    ensures
        en_passant_clear(s),
{
    if mode == MoveGenerationMode::AllMoves && castling_moves(b).contains(s) {
        lemma_castling_shape(b);
        let c = castling_moves(b);
        let a = castle_option(b, CastlingType::WhiteKingSide);
        let bb = castle_option(b, CastlingType::WhiteQueenSide);
        let cc = castle_option(b, CastlingType::BlackKingSide);
        let d = castle_option(b, CastlingType::BlackQueenSide);
        assert(c == a + bb + cc + d);
        let i = choose|i: int| 0 <= i < c.len() && c[i] == s;
        if i < a.len() {
            assert(c[i] == a[i]);
        } else if i < a.len() + bb.len() {
            assert(c[i] == bb[i - a.len()]);
        } else if i < a.len() + bb.len() + cc.len() {
            assert(c[i] == cc[i - a.len() - bb.len()]);
        } else {
            assert(c[i] == d[i - a.len() - bb.len() - cc.len()]);
        }
    } else {
        let from = choose|from: Point|
            on_board(from) && cell(b, from.0 as int, from.1 as int) is Full && cell(
                b,
                from.0 as int,
                from.1 as int,
            )->0.color == b.to_move && #[trigger] piece_successor(
                b,
                cell(b, from.0 as int, from.1 as int)->0,
                from,
                mode,
                s,
            );
        let piece = cell(b, from.0 as int, from.1 as int)->0;
        if !en_passant_successors(b, piece, from).contains(s) {
            let to = choose|to: Point|
                piece_target(b, piece, from.0 as int, from.1 as int, mode, to) && #[trigger] successors(
                    b,
                    piece,
                    from,
                    to,
                    mode,
                ).contains(s);
            lemma_target_on_board(b, piece, from.0 as int, from.1 as int, mode, to);
            lemma_successor_keeps_en_passant_clear(b, piece, from, to, mode, s);
        }
    }
}

/// One step of counting the move sequences of length `d`: a position adds the sequences of
/// length `d - 1` from it.
pub open spec fn perft_step(d: nat) -> spec_fn(nat, BoardState) -> nat
    decreases d, 0int,
{
    |acc: nat, s: BoardState|
        if d > 0 {
            acc + perft(s, (d - 1) as nat)
        } else {
            acc
        }
}

/// The number of sequences of `d` generated moves from `b` (the leaves of the move tree of
/// depth `d`).
pub open spec fn perft(b: BoardState, d: nat) -> nat
    decreases d, 1int,
{
    if d == 0 {
        1
    } else {
        successor_set(b, MoveGenerationMode::AllMoves).fold(0, perft_step(d))
    }
}

proof fn lemma_perft_step_commutes(d: nat)
    ensures
        is_fun_commutative(perft_step(d)),
{
    let f = perft_step(d);
    assert forall|a1: BoardState, a2: BoardState, acc: nat| #[trigger] f(f(acc, a2), a1) == f(f(acc, a1), a2) by {}
}

/// One move ahead, the count is the number of positions.
proof fn lemma_fold_counts(moves: Set<BoardState>)
    requires
        moves.finite(),
    ensures
        moves.fold(0, perft_step(1)) == moves.len(),
{
    let f = perft_step(1);
    lemma_perft_step_commutes(1);
    let pred = |m: Set<BoardState>| m.fold(0, f) == m.len();
    lemma_fold_empty(0nat, f);
    assert forall|m: Set<BoardState>, a: BoardState| pred(m) && m.finite() && !m.contains(a) implies #[trigger] pred(
        m.insert(a),
    ) by {
        lemma_fold_insert(m, 0nat, f, a);
        assert(perft(a, 0) == 1);
    }
    lemma_finite_set_induct(moves, pred);
}

/*
    Generate all valid moves recursively given the current board state

    Will generate up until cur_depth = depth, adding the number of positions found at each
    depth to `move_counts` (counts wrap around on overflow)
*/
pub fn generate_moves_test(
    board: &BoardState,
    cur_depth: usize,
    depth: usize,
    move_counts: &mut [u32],
    should_evaluate: bool,
)
    requires
        well_formed(*board),
        kings_on_board(*board),
        cur_depth <= depth,
        depth <= old(move_counts)@.len(),
    ensures
        final(move_counts)@.len() == old(move_counts)@.len(),
        forall|i: int|
            0 <= i < old(move_counts)@.len() && !(cur_depth <= i < depth) ==> #[trigger] final(move_counts)@[i] == old(move_counts)@[i],
        en_passant_clear(*board) ==> forall|i: int|
            cur_depth <= i < depth ==> #[trigger] final(move_counts)@[i] == (old(move_counts)@[i] + perft(
                *board,
                (i - cur_depth + 1) as nat,
            )) % 0x1_0000_0000,
    decreases depth - cur_depth,
{
    if cur_depth == depth {
        if should_evaluate {
            // we don't do anything with this score, we just calculate it at the leaf for
            // performance testing purposes
            get_evaluation(board);
        }
        return;
    }
    let ghost b = *board;
    let ghost all = successor_set(b, MoveGenerationMode::AllMoves);
    let moves = generate_moves(board, MoveGenerationMode::AllMoves);
    let ghost m0 = move_counts@;
    let n = moves.len();
    move_counts[cur_depth] = move_counts[cur_depth].wrapping_add(#[verifier::truncate] (n as u32));
    let ghost m1 = move_counts@;
    proof {
        assert(moves@.to_set() =~= all);
        vstd::seq_lib::seq_to_set_is_finite(moves@);
        if en_passant_clear(b) {
            moves@.unique_seq_to_set();
            lemma_fold_counts(all);
            assert(perft(b, 1) == n);
            let x = m0[cur_depth as int];
            let n64 = n as u64;
            assert((n as u32) == (n64 as u32)) by (bit_vector)
                requires
                    n64 == n,
            ;
            assert((n64 as u32) as u64 == n64 % 0x1_0000_0000u64) by (bit_vector);
            vstd::arithmetic::div_mod::lemma_add_mod_noop(x as int, n as int, 0x1_0000_0000);
            vstd::arithmetic::div_mod::lemma_small_mod(x as nat, 0x1_0000_0000);
        }
        lemma_fold_empty(0nat, perft_step(1));
        assert(moves@.take(0).to_set() =~= Set::<BoardState>::empty());
        assert forall|d: nat| #[trigger] Set::<BoardState>::empty().fold(0nat, perft_step(d)) == 0 by {
            lemma_fold_empty(0nat, perft_step(d));
        }
    }
    let mut i: usize = 0;
    while i < moves.len()
        invariant
            i <= moves.len(),
            cur_depth < depth,
            depth <= move_counts@.len(),
            move_counts@.len() == m1.len(),
            b == *board,
            all == successor_set(b, MoveGenerationMode::AllMoves),
            moves@.to_set() == all,
            en_passant_clear(b) ==> moves@.no_duplicates(),
            forall|j: int|
                0 <= j < m1.len() && !(cur_depth < j < depth) ==> #[trigger] move_counts@[j]
                    == m1[j],
            forall|s: BoardState| #[trigger] moves@.contains(s) ==> generated(*board, MoveGenerationMode::AllMoves, s),
            en_passant_clear(b) ==> forall|j: int|
                cur_depth < j < depth ==> #[trigger] move_counts@[j] == (m1[j] + moves@.take(i as int).to_set().fold(
                    0,
                    perft_step((j - cur_depth + 1) as nat),
                )) % 0x1_0000_0000,
            well_formed(*board),
            kings_on_board(*board),
        decreases moves.len() - i,
    {
        let mov = &moves[i];
        proof {
            assert(moves@.contains(moves@[i as int]));
            lemma_generated_well_formed(*board, MoveGenerationMode::AllMoves, *mov);
            if en_passant_clear(b) {
                lemma_generated_keeps_en_passant_clear(b, MoveGenerationMode::AllMoves, *mov);
            }
        }
        let ghost before = move_counts@;
        let ghost done = moves@.take(i as int);
        generate_moves_test(mov, cur_depth + 1, depth, move_counts, should_evaluate);
        proof {
            assert(moves@.take(i + 1) =~= done.push(*mov));
            assert(moves@.take(i + 1).to_set() =~= done.to_set().insert(*mov)) by {
                assert forall|x: BoardState| #[trigger] done.push(*mov).contains(x) <==> done.contains(x) || x == *mov by {
                    if done.push(*mov).contains(x) {
                        let k = choose|k: int| 0 <= k < done.push(*mov).len() && done.push(*mov)[k] == x;
                        if k < done.len() {
                            assert(done[k] == x);
                        }
                    }
                    if done.contains(x) {
                        let k = choose|k: int| 0 <= k < done.len() && done[k] == x;
                        assert(done.push(*mov)[k] == x);
                    }
                    if x == *mov {
                        assert(done.push(*mov)[done.len() as int] == x);
                    }
                }
            }
            if en_passant_clear(b) {
                assert(!done.contains(*mov)) by {
                    if done.contains(*mov) {
                        let k = choose|k: int| 0 <= k < done.len() && done[k] == *mov;
                        assert(moves@[k] == moves@[i as int]);
                    }
                }
                vstd::seq_lib::seq_to_set_is_finite(done);
                assert forall|j: int| cur_depth < j < depth implies #[trigger] move_counts@[j] == (m1[j]
                    + moves@.take(i + 1).to_set().fold(0, perft_step((j - cur_depth + 1) as nat)))
                    % 0x1_0000_0000 by {
                    let d = (j - cur_depth + 1) as nat;
                    lemma_perft_step_commutes(d);
                    lemma_fold_insert(done.to_set(), 0nat, perft_step(d), *mov);
                    let f = done.to_set().fold(0nat, perft_step(d));
                    let x = perft(*mov, (j - (cur_depth + 1) + 1) as nat);
                    assert(move_counts@[j] == (before[j] + x) % 0x1_0000_0000);
                    assert(before[j] == (m1[j] + f) % 0x1_0000_0000);
                    vstd::arithmetic::div_mod::lemma_add_mod_noop(m1[j] + f, x as int, 0x1_0000_0000);
                    vstd::arithmetic::div_mod::lemma_add_mod_noop_right((m1[j] + f) % 0x1_0000_0000, x as int, 0x1_0000_0000);
                }
            }
        }
        i = i + 1;
    }
    proof {
        if en_passant_clear(b) {
            assert(moves@.take(moves@.len() as int) =~= moves@);
            assert(moves@.take(i as int).to_set() == all);
            assert forall|j: int| cur_depth <= j < depth implies #[trigger] move_counts@[j] == (m0[j] + perft(
                b,
                (j - cur_depth + 1) as nat,
            )) % 0x1_0000_0000 by {
                if j > cur_depth {
                    assert(m1[j] == m0[j]);
                    let d = (j - cur_depth + 1) as nat;
                    assert(perft(b, d) == all.fold(0, perft_step(d)));
                } else {
                    assert(move_counts@[j] == m1[j]);
                }
            }
        }
    }
}


/// Castling never leaves the king in check.
pub proof fn lemma_castling_moves_legal(b: BoardState, s: BoardState)
    requires
        well_formed(b),
        kings_on_board(b),
        castling_moves(b).contains(s),
    ensures
        !in_check(s, b.to_move),
{
    let c = castling_moves(b);
    let a = castle_option(b, CastlingType::WhiteKingSide);
    let bb = castle_option(b, CastlingType::WhiteQueenSide);
    let cc = castle_option(b, CastlingType::BlackKingSide);
    let d = castle_option(b, CastlingType::BlackQueenSide);
    assert(c == a + bb + cc + d);
    let i = choose|i: int| 0 <= i < c.len() && c[i] == s;
    if i < a.len() {
        assert(c[i] == a[i]);
    } else if i < a.len() + bb.len() {
        assert(c[i] == bb[i - a.len()]);
    } else if i < a.len() + bb.len() + cc.len() {
        assert(c[i] == cc[i - a.len() - bb.len()]);
    } else {
        assert(c[i] == d[i - a.len() - bb.len() - cc.len()]);
    }
}

/// A promotion leaves the mover in check exactly when the pawn's step did.
proof fn lemma_promotion_keeps_check(b: BoardState, piece: Piece, from: Point, to: Point, mode: MoveGenerationMode, s: BoardState)
    requires
        well_formed(b),
        kings_on_board(b),
        on_board(from),
        on_board(to),
        from.0 != to.0,
        piece_target(b, piece, from.0 as int, from.1 as int, mode, to),
        mode == MoveGenerationMode::AllMoves,
        promotes(piece, to),
        successors(b, piece, from, to, mode).contains(s),
    ensures
        in_check(s, piece.color) == in_check(base_successor(b, piece, from, to), piece.color),
{
    let s0 = base_successor(b, piece, from, to);
    let s1 = rights_after(s0, piece, from, to);
    let s2 = BoardState { pawn_double_move: en_passant_after(piece, from, to), ..s1 };
    let seqs = successors(b, piece, from, to, mode);
    let i = choose|i: int| 0 <= i < seqs.len() && seqs[i] == s;
    let (r0, c0) = (to.0 as int, to.1 as int);
    let inner = with_square(b.board, r0, c0, Square::Full(piece));
    assert(inner[r0][c0] == Square::Full(piece));
    assert(s0.board[r0] == inner[r0]);
    assert(s0.board[r0][c0] == Square::Full(piece));
    assert(s2.board == s0.board);
    assert(s.board == with_square(s2.board, r0, c0, s.board[r0][c0]));
    lemma_successors_well_formed(b, piece, from, to, mode, s);
    assert forall|r: int, c: int| 0 <= r < 12 && 0 <= c < 12 && (r != r0 || c != c0) implies #[trigger] cell(
        s0,
        r,
        c,
    ) == cell(s, r, c) by {
        if r == r0 {
            assert(s.board[r]@ == s2.board[r]@.update(c0, s.board[r0][c0]));
        }
    }
    assert(frame_ok(s0)) by {
        assert forall|r: int, c: int|
            0 <= r < 12 && 0 <= c < 12 && !(BOARD_START <= r < BOARD_END && BOARD_START <= c
                < BOARD_END) implies #[trigger] cell(s0, r, c) == Square::Boundary by {
            assert(cell(s, r, c) == Square::Boundary);
            assert(cell(s0, r, c) == cell(s, r, c));
        }
    }
    assert(same_but_own_piece(s0, s, piece.color, r0, c0));
    assert(kings_on_board(s));
    lemma_attacked_same_occupancy(s0, s, piece.color, r0, c0, king_location(s0, piece.color));
}

/// A move without promotion leaves the mover in check exactly when the piece's step did.
#[verifier::spinoff_prover]
proof fn lemma_plain_successor_keeps_check(b: BoardState, piece: Piece, from: Point, to: Point, mode: MoveGenerationMode, s: BoardState)
    requires
        well_formed(b),
        kings_on_board(b),
        on_board(from),
        on_board(to),
        piece_target(b, piece, from.0 as int, from.1 as int, mode, to),
        !(mode == MoveGenerationMode::AllMoves && promotes(piece, to)),
        successors(b, piece, from, to, mode).contains(s),
    ensures
        !in_check(base_successor(b, piece, from, to), piece.color),
        in_check(s, piece.color) == in_check(base_successor(b, piece, from, to), piece.color),
{
    let seqs = successors(b, piece, from, to, mode);
    let i = choose|i: int| 0 <= i < seqs.len() && seqs[i] == s;
    let s0 = base_successor(b, piece, from, to);
    lemma_successors_well_formed(b, piece, from, to, mode, s);
    assert(s.board == s0.board);
    lemma_frame_same_board(s, s0);
    assert(same_but_own_piece(s0, s, piece.color, 0, 0));
    lemma_attacked_same_occupancy(s0, s, piece.color, 0, 0, king_location(s0, piece.color));
}

/// Every position generated by moving a piece, castling aside, leaves the side that moved out
/// of check.
#[verifier::spinoff_prover]
pub proof fn lemma_generated_moves_legal(b: BoardState, mode: MoveGenerationMode, s: BoardState)
    requires
        well_formed(b),
        kings_on_board(b),
        generated(b, mode, s),
        !castling_moves(b).contains(s),
    ensures
        !in_check(s, b.to_move),
{
    let from = choose|from: Point|
        on_board(from) && cell(b, from.0 as int, from.1 as int) is Full && cell(
            b,
            from.0 as int,
            from.1 as int,
        )->0.color == b.to_move && #[trigger] piece_successor(
            b,
            cell(b, from.0 as int, from.1 as int)->0,
            from,
            mode,
            s,
        );
    let piece = cell(b, from.0 as int, from.1 as int)->0;
    if exists|to: Point|
        piece_target(b, piece, from.0 as int, from.1 as int, mode, to) && #[trigger] successors(
            b,
            piece,
            from,
            to,
            mode,
        ).contains(s) {
        let to = choose|to: Point|
            piece_target(b, piece, from.0 as int, from.1 as int, mode, to) && #[trigger] successors(
                b,
                piece,
                from,
                to,
                mode,
            ).contains(s);
        lemma_target_on_board(b, piece, from.0 as int, from.1 as int, mode, to);
        lemma_target_shape(b, piece, from.0 as int, from.1 as int, mode, to);
        if mode == MoveGenerationMode::AllMoves && promotes(piece, to) {
            lemma_promotion_keeps_check(b, piece, from, to, mode, s);
        } else {
            lemma_plain_successor_keeps_check(b, piece, from, to, mode, s);
        }
    }
}

} // verus!
