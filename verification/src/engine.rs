use crate::board::{key_is_current, on_board, position_key, with_square, BoardState, Piece, PieceColor, PieceKind, Point, Square};
use crate::evaluation::{get_evaluation, spec_evaluation, EVAL_BOUND};
use crate::move_generation::{
    base_successor, bishop_target, castling_moves, cell, clear_between, off, ray_hits, en_passant_square, en_passant_successor,
    en_passant_successors, generate_moves, generated, king_target, kings_on_board, knight_target,
    landable, lemma_generated_well_formed, move_list, moved_board, pawn_target, piece_successor, piece_target,
    rights_after, rook_target, slide_target, step_target, successor_set, successors, well_formed,
    MoveGenerationMode,
};
use crate::draw_table::{seen, DrawTable};
use crate::move_generation::{in_check, is_check, king_location};
use crate::search::{SearchContext, KILLER_MOVE_PLY_SIZE, MAX_DEPTH};
use crate::fen::algebraic;
use crate::zobrist::ZobristHasher;
use crate::text::{append, chars_of, decimal_text, push_decimal, push_signed, signed_text, string_of};
use crate::utils::{out_of_time, MAX_MILLIS};
use std::time::Instant;
use vstd::multiset::Multiset;
use vstd::set::fold::{is_fun_commutative, lemma_finite_set_induct, lemma_fold_empty, lemma_fold_insert};
use vstd::prelude::*;

verus! {

broadcast use {vstd::seq_lib::group_to_multiset_ensures, vstd::multiset::group_multiset_axioms};

pub const MATE_SCORE: i32 = 100000;

pub const POS_INF: i32 = 9999999;

pub const NEG_INF: i32 = -9999999;

/*
    We want killer moves to be ordered behind all "good" captures, but still ahead of other moves
    For our purposes a good capture is capturing any with a piece of lower value

    Ex: capturing a pawn with a queen is a "bad" capture
        capturing a queen with a pawn is a "good" capture

    For this reason we give killer moves a -1, or ranked slightly below equal captures
*/
pub const KILLER_MOVE_SCORE: i32 = -1;

// ---------------------------------------------------------------------------------------
// Counting pieces: every capture removes one, which bounds the capture search.

pub open spec fn full_count(s: Square) -> int {
    if s is Full {
        1
    } else {
        0
    }
}

/// The pieces among the first `n` cells of a row.
pub open spec fn row_pieces(cells: Seq<Square>, n: nat) -> int
    decreases n,
{
    if n == 0 {
        0
    } else {
        row_pieces(cells, (n - 1) as nat) + full_count(cells[n - 1])
    }
}

/// The pieces in the first `n` rows.
pub open spec fn rows_pieces(b: [[Square; 12]; 12], n: nat) -> int
    decreases n,
{
    if n == 0 {
        0
    } else {
        rows_pieces(b, (n - 1) as nat) + row_pieces(b[n - 1]@, 12)
    }
}

/// The number of pieces on the board.
pub open spec fn piece_count(b: [[Square; 12]; 12]) -> int {
    rows_pieces(b, 12)
}

/// What bounds the capture search: twice the pieces, plus one while an en passant capture is
/// possible.
pub open spec fn capture_measure(b: BoardState) -> int {
    2 * piece_count(b.board) + if b.pawn_double_move is Some {
        1int
    } else {
        0int
    }
}

proof fn lemma_row_pieces_nonneg(cells: Seq<Square>, n: nat)
    ensures
        row_pieces(cells, n) >= 0,
    decreases n,
{
    if n > 0 {
        lemma_row_pieces_nonneg(cells, (n - 1) as nat);
    }
}

proof fn lemma_rows_pieces_nonneg(b: [[Square; 12]; 12], n: nat)
    ensures
        rows_pieces(b, n) >= 0,
    decreases n,
{
    if n > 0 {
        lemma_rows_pieces_nonneg(b, (n - 1) as nat);
        lemma_row_pieces_nonneg(b[n - 1]@, 12);
    }
}

/// The capture measure is never negative.
pub proof fn lemma_capture_measure_nonneg(b: BoardState)
    ensures
        capture_measure(b) >= 0,
{
    lemma_rows_pieces_nonneg(b.board, 12);
}

proof fn lemma_row_pieces_update(cells: Seq<Square>, new_cells: Seq<Square>, n: nat, col: int, x: Square)
    requires
        0 <= col < cells.len(),
        n <= cells.len(),
        new_cells == cells.update(col, x),
    ensures
        row_pieces(new_cells, n) == row_pieces(cells, n) + if col < n {
            full_count(x) - full_count(cells[col])
        } else {
            0
        },
    decreases n,
{
    if n > 0 {
        lemma_row_pieces_update(cells, new_cells, (n - 1) as nat, col, x);
    }
}

proof fn lemma_rows_pieces_update(
    b: [[Square; 12]; 12],
    nb: [[Square; 12]; 12],
    n: nat,
    row: int,
    col: int,
    x: Square,
)
    requires
        0 <= row < 12,
        0 <= col < 12,
        n <= 12,
        forall|i: int| 0 <= i < 12 && i != row ==> nb[i] == b[i],
        nb[row]@ == b[row]@.update(col, x),
    ensures
        rows_pieces(nb, n) == rows_pieces(b, n) + if row < n {
            full_count(x) - full_count(b[row][col])
        } else {
            0
        },
    decreases n,
{
    if n > 0 {
        lemma_rows_pieces_update(b, nb, (n - 1) as nat, row, col, x);
        if row == n - 1 {
            lemma_row_pieces_update(b[row]@, nb[row]@, 12, col, x);
        }
    }
}

/// Writing one cell changes the count by what the cell held and what it holds now.
pub proof fn lemma_piece_count_update(b: [[Square; 12]; 12], row: int, col: int, x: Square)
    requires
        0 <= row < 12,
        0 <= col < 12,
    ensures
        piece_count(with_square(b, row, col, x)) == piece_count(b) + full_count(x) - full_count(
            b[row][col],
        ),
{
    let nb = with_square(b, row, col, x);
    assert(nb[row]@ == b[row]@.update(col, x));
    assert forall|i: int| 0 <= i < 12 && i != row implies nb[i] == b[i] by {}
    lemma_rows_pieces_update(b, nb, 12, row, col, x);
}

/// In the captures-only mode every target square holds a piece of the other color.
proof fn lemma_capture_target(b: BoardState, piece: Piece, r: int, c: int, p: Point)
    requires
        piece_target(b, piece, r, c, MoveGenerationMode::CapturesOnly, p),
    ensures
        cell(b, p.0 as int, p.1 as int) is Full,
        cell(b, p.0 as int, p.1 as int)->0.color == piece.color.spec_opposite(),
{
    let mode = MoveGenerationMode::CapturesOnly;
    let color = piece.color;
    match piece.kind {
        PieceKind::Pawn => {},
        PieceKind::Knight => {
            let i = choose|i: int|
                0 <= i < 8 && #[trigger] step_target(
                    b,
                    r,
                    c,
                    crate::move_generation::knight_dr(i),
                    crate::move_generation::knight_dc(i),
                    color,
                    mode,
                    p,
                );
        },
        PieceKind::King => {
            let (i, j) = choose|i: int, j: int|
                0 <= i < 3 && 0 <= j < 3 && #[trigger] step_target(b, r, c, i - 1, j - 1, color, mode, p);
        },
        _ => {
            assert(rook_target(b, r, c, color, mode, p) || bishop_target(b, r, c, color, mode, p));
            assert forall|dr: int, dc: int| #[trigger] slide_target(b, r, c, dr, dc, color, mode, p) implies (cell(b, p.0 as int, p.1 as int) is Full && cell(b, p.0 as int, p.1 as int)->0.color == color.spec_opposite()) by {
                let k = choose|k: int|
                    k >= 1 && crate::move_generation::clear_between(b, r, c, dr, dc, k) && p.0 == r
                        + crate::move_generation::off(k, dr) && p.1 == c + crate::move_generation::off(k, dc)
                        && #[trigger] landable(
                        cell(b, r + crate::move_generation::off(k, dr), c + crate::move_generation::off(k, dc)),
                        color,
                        mode,
                    );
            }
        },
    }
}

/// A capture onto an opposing piece removes one piece and keeps the en passant target.
proof fn lemma_plain_capture_shrinks(b: BoardState, piece: Piece, from: Point, to: Point, s: BoardState)
    requires
        well_formed(b),
        on_board(from),
        cell(b, from.0 as int, from.1 as int) == Square::Full(piece),
        piece_target(b, piece, from.0 as int, from.1 as int, MoveGenerationMode::CapturesOnly, to),
        successors(b, piece, from, to, MoveGenerationMode::CapturesOnly).contains(s),
    ensures
        capture_measure(s) < capture_measure(b),
{
    let mode = MoveGenerationMode::CapturesOnly;
    lemma_capture_target(b, piece, from.0 as int, from.1 as int, to);
    let s0 = base_successor(b, piece, from, to);
    assert(s == rights_after(s0, piece, from, to));
    assert(s.board == moved_board(b.board, piece, from, to));
    assert(s.pawn_double_move == b.pawn_double_move);
    crate::move_generation::lemma_target_on_board(b, piece, from.0 as int, from.1 as int, mode, to);
    let mid = with_square(b.board, to.0 as int, to.1 as int, Square::Full(piece));
    lemma_piece_count_update(b.board, to.0 as int, to.1 as int, Square::Full(piece));
    lemma_piece_count_update(mid, from.0 as int, from.1 as int, Square::Empty);
    assert(mid[from.0 as int][from.1 as int] == b.board[from.0 as int][from.1 as int]);
}

/// An en passant capture keeps or lowers the number of pieces and clears the target.
proof fn lemma_en_passant_shrinks(b: BoardState, piece: Piece, from: Point, s: BoardState)
    requires
        well_formed(b),
        on_board(from),
        cell(b, from.0 as int, from.1 as int) == Square::Full(piece),
        en_passant_successors(b, piece, from).contains(s),
    ensures
        capture_measure(s) < capture_measure(b),
{
    let to = en_passant_square(b, piece, from.0 as int, from.1 as int)->Some_0;
    assert(b.pawn_double_move is Some);
    let behind = if piece.color == PieceColor::White { to.0 + 1 } else { to.0 - 1 };
    assert(s == en_passant_successor(b, piece, from, to));
    let m1 = with_square(b.board, to.0 as int, to.1 as int, Square::Full(piece));
    let m2 = with_square(m1, from.0 as int, from.1 as int, Square::Empty);
    assert(m2 == moved_board(b.board, piece, from, to));
    lemma_piece_count_update(b.board, to.0 as int, to.1 as int, Square::Full(piece));
    lemma_piece_count_update(m1, from.0 as int, from.1 as int, Square::Empty);
    lemma_piece_count_update(m2, behind, to.1 as int, Square::Empty);
    assert(m1[from.0 as int][from.1 as int] == b.board[from.0 as int][from.1 as int]);
}

/// Every position the capture search steps to has a smaller measure: a capture removes a
/// piece, and an en passant capture also clears the en passant target.
pub proof fn lemma_capture_shrinks(b: BoardState, s: BoardState)
    requires
        well_formed(b),
        kings_on_board(b),
        generated(b, MoveGenerationMode::CapturesOnly, s),
    ensures
        capture_measure(s) < capture_measure(b),
{
    let mode = MoveGenerationMode::CapturesOnly;
    let from = choose|from: Point|
        on_board(from) && cell(b, from.0 as int, from.1 as int) is Full && cell(
            b,
            from.0 as int,
            from.1 as int,
        )->0.color == b.to_move && #[trigger] piece_successor(
            b,
            cell(b, from.0 as int, from.1 as int)->0,
            from,
            mode,
            s,
        );
    let piece = cell(b, from.0 as int, from.1 as int)->0;
    if exists|to: Point|
        piece_target(b, piece, from.0 as int, from.1 as int, mode, to) && #[trigger] successors(
            b,
            piece,
            from,
            to,
            mode,
        ).contains(s) {
        let to = choose|to: Point|
            piece_target(b, piece, from.0 as int, from.1 as int, mode, to) && #[trigger] successors(
                b,
                piece,
                from,
                to,
                mode,
            ).contains(s);
        lemma_plain_capture_shrinks(b, piece, from, to, s);
    } else {
        lemma_en_passant_shrinks(b, piece, from, s);
    }
}

// ---------------------------------------------------------------------------------------
// Move ordering.

/// Whether the moves are in decreasing order of their ordering scores.
pub open spec fn ordered(moves: Seq<BoardState>) -> bool {
    forall|i: int, j: int|
        0 <= i < j < moves.len() ==> #[trigger] moves[i].order_heuristic >= #[trigger] moves[j].order_heuristic
}

/// Sorts the moves by decreasing ordering score, so that the most promising come first.
pub fn sort_moves(moves: &mut Vec<BoardState>)
    ensures
        final(moves)@.to_multiset() == old(moves)@.to_multiset(),
        ordered(final(moves)@),
{
    let mut sorted: Vec<BoardState> = Vec::new();
    while moves.len() > 0
        invariant
            sorted@.to_multiset().add(moves@.to_multiset()) == old(moves)@.to_multiset(),
            ordered(sorted@),
            forall|i: int, j: int|
                0 <= i < sorted@.len() && 0 <= j < moves@.len() ==> #[trigger] sorted@[i].order_heuristic
                    >= #[trigger] moves@[j].order_heuristic,
        decreases moves.len(),
    {
        let mut best: usize = 0;
        let mut i: usize = 1;
        while i < moves.len()
            invariant
                best < moves.len(),
                1 <= i <= moves.len(),
                forall|j: int| 0 <= j < i ==> moves@[best as int].order_heuristic >= #[trigger] moves@[j].order_heuristic,
            decreases moves.len() - i,
        {
            if moves[i].order_heuristic > moves[best].order_heuristic {
                best = i;
            }
            i = i + 1;
        }
        let ghost before = moves@;
        let ghost before_sorted = sorted@;
        let m = moves.remove(best);
        proof {
            vstd::seq_lib::to_multiset_remove(before, best as int);
            vstd::seq_lib::to_multiset_contains(before, m);
            assert(before.contains(before[best as int]));
            assert(before.to_multiset().count(m) > 0);
            assert(before.to_multiset() =~= before.to_multiset().remove(m).insert(m));
        }
        sorted.push(m);
        assert(sorted@.to_multiset() == before_sorted.to_multiset().insert(m));
        assert(sorted@.to_multiset().add(moves@.to_multiset()) =~= before_sorted.to_multiset().add(before.to_multiset()));
        assert forall|j: int| 0 <= j < moves@.len() implies m.order_heuristic >= #[trigger] moves@[j].order_heuristic by {
            if j < best {
                assert(moves@[j] == before[j]);
            } else {
                assert(moves@[j] == before[j + 1]);
            }
        }
        assert forall|a: int, c: int|
            0 <= a < sorted@.len() && 0 <= c < moves@.len() implies #[trigger] sorted@[a].order_heuristic
                >= #[trigger] moves@[c].order_heuristic by {
            if a < before_sorted.len() {
                if c < best {
                    assert(moves@[c] == before[c]);
                } else {
                    assert(moves@[c] == before[c + 1]);
                }
            }
        }
        assert forall|a: int, c: int| 0 <= a < c < sorted@.len() implies #[trigger] sorted@[a].order_heuristic >= #[trigger] sorted@[c].order_heuristic by {
            if c == before_sorted.len() {
                assert(before_sorted[a].order_heuristic >= before[best as int].order_heuristic);
            }
        }
    }
    assert(moves@.to_multiset() =~= Multiset::empty());
    assert(sorted@.to_multiset() =~= old(moves)@.to_multiset());
    *moves = sorted;
}

// ---------------------------------------------------------------------------------------
// The capture search.

/// Fail-hard bounds of a capture search with window (`alpha`, `beta`) on a position whose
/// static evaluation is `stand_pat`: the value is `beta` when the static evaluation already
/// reaches it; otherwise it is at least `alpha` raised to the static evaluation (or `beta`
/// if that is lower), and never above the larger of `alpha` and `beta`.
pub open spec fn quiesce_bounds(stand_pat: int, alpha: int, beta: int, r: int) -> bool {
    let floor = if alpha < stand_pat { stand_pat } else { alpha };
    &&& stand_pat >= beta ==> r == beta
    &&& r <= if alpha > beta { alpha } else { beta }
    &&& stand_pat < beta ==> r >= if floor < beta { floor } else { beta }
}

/// The larger of `acc` and `v`.
pub open spec fn raise(acc: int, v: int) -> int {
    if acc < v {
        v
    } else {
        acc
    }
}

/// `v` brought into the window [`lo`, `hi`].
pub open spec fn clamp(v: int, lo: int, hi: int) -> int {
    if v <= lo {
        lo
    } else if v >= hi {
        hi
    } else {
        v
    }
}

/// One step of the capture value of `b`: a capture `s` raises the value found so far to the
/// negated value of `s` (every capture lowers the capture measure).
pub open spec fn capture_step(b: BoardState) -> spec_fn(int, BoardState) -> int
    decreases capture_measure(b), 0int,
{
    |acc: int, s: BoardState|
        if 0 <= capture_measure(s) < capture_measure(b) {
            raise(acc, -capture_value(s))
        } else {
            acc
        }
}

/// The value of a position for the side to move when only captures are searched: the static
/// evaluation (the side to move may stand pat), raised to the best negated value of the
/// positions its captures lead to.
pub open spec fn capture_value(b: BoardState) -> int
    decreases capture_measure(b), 1int,
{
    raise(
        spec_evaluation(b),
        successor_set(b, MoveGenerationMode::CapturesOnly).fold(spec_evaluation(b), capture_step(b)),
    )
}

proof fn lemma_capture_step_commutes(b: BoardState)
    ensures
        is_fun_commutative(capture_step(b)),
{
    let f = capture_step(b);
    assert forall|a1: BoardState, a2: BoardState, acc: int| #[trigger] f(f(acc, a2), a1) == f(
        f(acc, a1),
        a2,
    ) by {}
}

/// Folding the capture steps over a finite set of positions never lowers the start value.
proof fn lemma_capture_fold_floor(b: BoardState, moves: Set<BoardState>, z: int)
    requires
        moves.finite(),
    ensures
        moves.fold(z, capture_step(b)) >= z,
{
    let f = capture_step(b);
    lemma_capture_step_commutes(b);
    let pred = |m: Set<BoardState>| m.fold(z, f) >= z;
    lemma_fold_empty(z, f);
    assert forall|m: Set<BoardState>, a: BoardState| pred(m) && m.finite() && !m.contains(a) implies #[trigger] pred(
        m.insert(a),
    ) by {
        lemma_fold_insert(m, z, f, a);
    }
    lemma_finite_set_induct(moves, pred);
}

/// Folding the capture steps over a finite set reaches the negated value of each capture in it.
proof fn lemma_capture_fold_reaches(b: BoardState, moves: Set<BoardState>, z: int, s: BoardState)
    requires
        moves.finite(),
        moves.contains(s),
        0 <= capture_measure(s) < capture_measure(b),
    ensures
        moves.fold(z, capture_step(b)) >= -capture_value(s),
{
    let f = capture_step(b);
    lemma_capture_step_commutes(b);
    lemma_fold_insert(moves.remove(s), z, f, s);
    assert(moves.remove(s).insert(s) =~= moves);
}

/// Folding one more capture into a finite set raises the result to that capture's value.
proof fn lemma_capture_fold_insert(b: BoardState, moves: Set<BoardState>, z: int, s: BoardState)
    requires
        moves.finite(),
        0 <= capture_measure(s) < capture_measure(b),
    ensures
        moves.insert(s).fold(z, capture_step(b)) == raise(moves.fold(z, capture_step(b)), -capture_value(s)),
{
    let f = capture_step(b);
    lemma_capture_step_commutes(b);
    if moves.contains(s) {
        assert(moves.insert(s) =~= moves);
        lemma_capture_fold_reaches(b, moves, z, s);
    } else {
        lemma_fold_insert(moves, z, f, s);
    }
}

/*
    Capture extension, only search captures from here on to
    find a "quite" position
*/
pub fn quiesce(
    board: &BoardState,
    alpha: i32,
    beta: i32,
    search_info: &mut crate::search::SearchContext,
) -> (r: i32)
    requires
        well_formed(*board),
        kings_on_board(*board),
        i32::MIN < alpha,
        i32::MIN < beta,
    ensures
        quiesce_bounds(spec_evaluation(*board), alpha as int, beta as int, r as int),
        alpha < beta ==> r == clamp(capture_value(*board), alpha as int, beta as int),
        // with the window already closed the search fails high on the static evaluation or
        // on any capture
        alpha >= beta ==> r == if spec_evaluation(*board) >= beta || (exists|s: BoardState|
            generated(*board, MoveGenerationMode::CapturesOnly, s)) {
            beta
        } else {
            alpha
        },
        (if alpha < beta { alpha } else { beta }) <= r <= (if alpha > beta { alpha } else { beta }),
        NEG_INF <= alpha <= POS_INF && NEG_INF <= beta <= POS_INF ==> NEG_INF <= r <= POS_INF,
        final(search_info).killer_moves == old(search_info).killer_moves,
        final(search_info).pv_moves == old(search_info).pv_moves,
        final(search_info).cur_line == old(search_info).cur_line,
        // the value stays strictly inside the search range unless the window touches its end
        alpha < POS_INF ==> r < POS_INF,
        beta > NEG_INF ==> r > NEG_INF,
        // a leaf of the capture search counts one node
        spec_evaluation(*board) >= beta || (forall|s: BoardState| !generated(*board, MoveGenerationMode::CapturesOnly, s))
            ==> final(search_info).nodes_searched == old(search_info).nodes_searched.wrapping_add(1),
    decreases capture_measure(*board),
{
    let ghost alpha0 = alpha as int;
    let ghost b = *board;
    let mut best = alpha;
    search_info.node_searched();
    let ghost counted = search_info.nodes_searched;
    let stand_pat = get_evaluation(board);
    let ghost sp = stand_pat as int;
    let ghost step = capture_step(b);
    if stand_pat >= beta {
        return beta;
    }
    if best < stand_pat {
        best = stand_pat;
    }
    let ghost floor = best;
    let ghost top: int = if floor > beta { floor as int } else { beta as int };
    let mut moves = generate_moves(board, MoveGenerationMode::CapturesOnly);
    let ghost generated_moves = moves@;
    sort_moves(&mut moves);
    proof {
        lemma_fold_empty(sp, step);
        assert(moves@.take(0).to_set() =~= Set::<BoardState>::empty());
    }
    let mut i: usize = 0;
    while i < moves.len()
        invariant
            i <= moves.len(),
            b == *board,
            sp == spec_evaluation(b),
            step == capture_step(b),
            sp < beta,
            alpha0 == alpha as int,
            i32::MIN < best,
            alpha0 < POS_INF ==> best < POS_INF,
            -EVAL_BOUND <= sp <= EVAL_BOUND,
            moves@.len() == 0 ==> search_info.nodes_searched == counted,
            counted == old(search_info).nodes_searched.wrapping_add(1),
            alpha0 >= beta ==> i == 0 && best == alpha,
            alpha0 < beta ==> best < beta && best as int == raise(
                alpha0,
                moves@.take(i as int).to_set().fold(sp, step),
            ),
            well_formed(*board),
            kings_on_board(*board),
            forall|s: BoardState| #[trigger] generated_moves.contains(s) <==> generated(*board, MoveGenerationMode::CapturesOnly, s),
            moves@.to_multiset() == generated_moves.to_multiset(),
            floor <= best <= top,
            top == if floor > beta { floor as int } else { beta as int },
            i32::MIN < beta,
            beta > NEG_INF ==> best > NEG_INF,
            search_info.killer_moves == old(search_info).killer_moves,
            search_info.pv_moves == old(search_info).pv_moves,
            search_info.cur_line == old(search_info).cur_line,
        decreases moves.len() - i,
    {
        let mov = &moves[i];
        proof {
            assert(moves@[i as int] == *mov);
            assert(moves@.contains(*mov));
            assert(moves@.to_multiset().count(*mov) > 0);
            assert(generated_moves.contains(*mov));
            lemma_generated_well_formed(*board, MoveGenerationMode::CapturesOnly, *mov);
            lemma_capture_shrinks(*board, *mov);
            lemma_capture_measure_nonneg(*mov);
        }
        let ghost before = moves@.take(i as int).to_set();
        let ghost alpha_before = best as int;
        let score = -quiesce(mov, -beta, -best, search_info);
        proof {
            if alpha0 < beta {
                // the child's value seen from this side, clamped to the window
                let v = -capture_value(*mov);
                assert(score == clamp(v, alpha_before, beta as int));
                let t = moves@.take(i as int);
                assert(moves@.take(i + 1) =~= t.push(*mov));
                assert forall|x: BoardState| t.push(*mov).contains(x) <==> #[trigger] before.insert(
                    *mov,
                ).contains(x) by {
                    if t.push(*mov).contains(x) {
                        let k = choose|k: int| 0 <= k < t.push(*mov).len() && t.push(*mov)[k] == x;
                        if k < t.len() {
                            assert(t[k] == x);
                        }
                    }
                    if t.contains(x) {
                        let k = choose|k: int| 0 <= k < t.len() && t[k] == x;
                        assert(t.push(*mov)[k] == x);
                    }
                    if x == *mov {
                        assert(t.push(*mov)[t.len() as int] == x);
                    }
                }
                assert(moves@.take(i + 1).to_set() =~= before.insert(*mov));
                vstd::seq_lib::seq_to_set_is_finite(t);
                lemma_capture_fold_insert(b, before, sp, *mov);
            }
        }
        if score >= beta {
            proof {
                if alpha0 < beta {
                    let all = successor_set(b, MoveGenerationMode::CapturesOnly);
                    assert(moves@.to_set() =~= all) by {
                        assert forall|x: BoardState| moves@.contains(x) <==> all.contains(x) by {
                            assert(moves@.to_multiset().count(x) == generated_moves.to_multiset().count(x));
                            moves@.to_multiset_ensures();
                            generated_moves.to_multiset_ensures();
                        }
                    }
                    vstd::seq_lib::seq_to_set_is_finite(moves@);
                    assert(moves@.contains(*mov));
                    lemma_capture_fold_reaches(b, all, sp, *mov);
                }
            }
            return beta;
        }
        if score > best {
            best = score;
        }
        i = i + 1;
    }
    proof {
        if forall|s: BoardState| !generated(b, MoveGenerationMode::CapturesOnly, s) {
            if moves@.len() > 0 {
                assert(moves@.to_multiset().count(moves@[0]) > 0);
                assert(generated_moves.to_multiset().count(moves@[0]) > 0);
                assert(generated_moves.contains(moves@[0]));
            }
        }
        if alpha0 >= beta {
            assert(moves@.len() == 0);
            assert(moves@.to_multiset().len() == 0);
            assert forall|s: BoardState| !generated(b, MoveGenerationMode::CapturesOnly, s) by {
                if generated(b, MoveGenerationMode::CapturesOnly, s) {
                    assert(generated_moves.contains(s));
                    assert(generated_moves.to_multiset().count(s) > 0);
                }
            }
        }
        if alpha0 < beta {
            let all = successor_set(b, MoveGenerationMode::CapturesOnly);
            assert(moves@.take(i as int) =~= moves@);
            assert(moves@.to_set() =~= all) by {
                assert forall|x: BoardState| moves@.contains(x) <==> all.contains(x) by {
                    assert(moves@.to_multiset().count(x) == generated_moves.to_multiset().count(x));
                    moves@.to_multiset_ensures();
                    generated_moves.to_multiset_ensures();
                }
            }
            vstd::seq_lib::seq_to_set_is_finite(moves@);
            lemma_capture_fold_floor(b, all, sp);
        }
    }
    best
}

// ---------------------------------------------------------------------------------------
// The main search.

/// The deepest ply a search can reach: moves are searched below `MAX_DEPTH`, and a null
/// move looks ten plies further.
pub const MAX_PLY: i32 = 110;

/// The table after the search leaves a position: its count drops by one, but not below zero.
pub open spec fn released(m: Map<u64, u8>, key: u64) -> Map<u64, u8> {
    if m.contains_key(key) {
        m.insert(key, if m[key] > 0 { (m[key] - 1) as u8 } else { 0 })
    } else {
        m
    }
}

fn remove_board_from_draw_table(board: &BoardState, draw_table: &mut DrawTable)
    ensures
        final(draw_table).table@ == released(old(draw_table).table@, board.zobrist_key),
{
    match draw_table.table.get(&board.zobrist_key) {
        Some(v) => {
            let val = *v;
            draw_table.table.insert(board.zobrist_key, if val > 0 { val - 1 } else { 0 });
        },
        None => {},
    }
}

/// Counts a visit of `board`; answers whether it was already seen twice, in which case the
/// table is left alone.
fn enter_position(board: &BoardState, draw_table: &mut DrawTable) -> (repeated: bool)
    ensures
        repeated == (old(draw_table).table@.contains_key(board.zobrist_key)
            && old(draw_table).table@[board.zobrist_key] == 2),
        repeated ==> final(draw_table).table@ == old(draw_table).table@,
        !repeated ==> final(draw_table).table@ == old(draw_table).table@.insert(
            board.zobrist_key,
            if old(draw_table).table@.contains_key(board.zobrist_key) {
                old(draw_table).table@[board.zobrist_key].wrapping_add(1)
            } else {
                1
            },
        ),
{
    match draw_table.table.get(&board.zobrist_key) {
        Some(v) => {
            let val = *v;
            if val == 2 {
                return true;
            }
            draw_table.table.insert(board.zobrist_key, val.wrapping_add(1));
        },
        None => {
            draw_table.table.insert(board.zobrist_key, 1);
        },
    }
    false
}

/// Whether two recorded moves are the same.
fn same_move(a: Option<(Point, Point)>, b: Option<(Point, Point)>) -> (r: bool)
    ensures
        r == (a == b),
{
    match (a, b) {
        (Some(x), Some(y)) => x.0.0 == y.0.0 && x.0.1 == y.0.1 && x.1.0 == y.1.0 && x.1.1 == y.1.1,
        (None, None) => true,
        _ => false,
    }
}

/// A position the search may step into: well formed, with both kings on the board.
pub open spec fn searchable(b: BoardState) -> bool {
    well_formed(b) && kings_on_board(b)
}

/// Whether a position can be searched depends only on its board, kings and en passant target.
proof fn lemma_searchable_same_frame(b: BoardState, nb: BoardState)
    requires
        searchable(b),
        nb.board == b.board,
        nb.white_king_location == b.white_king_location,
        nb.black_king_location == b.black_king_location,
        nb.pawn_double_move == b.pawn_double_move,
    ensures
        searchable(nb),
{
    crate::move_generation::lemma_frame_same_board(b, nb);
}

/// The ordering score of a move: first for the principal variation move, right behind the
/// good captures for a killer move, else its capture score.
pub open spec fn move_rank(mov: BoardState, info: SearchContext, ply: int) -> i32 {
    if mov.last_move == info.pv_moves[ply] {
        POS_INF
    } else if exists|i: int| 0 <= i < 2 && #[trigger] info.killer_moves[ply][i] == mov.zobrist_key {
        KILLER_MOVE_SCORE
    } else {
        mov.order_heuristic
    }
}

/// The move with its ordering score replaced by its rank.
pub open spec fn with_rank(mov: BoardState, info: SearchContext, ply: int) -> BoardState {
    BoardState { order_heuristic: move_rank(mov, info, ply), ..mov }
}

/// Every move of the list with its ordering score replaced by its rank.
pub open spec fn ranked_moves(moves: Seq<BoardState>, info: SearchContext, ply: int) -> Seq<BoardState> {
    moves.map_values(|m: BoardState| with_rank(m, info, ply))
}

fn move_score(mov: &BoardState, search_info: &SearchContext, ply: usize) -> (r: i32)
    requires
        ply < 100,
    ensures
        r == move_rank(*mov, *search_info, ply as int),
{
    if same_move(mov.last_move, search_info.pv_moves[ply]) {
        // consider principle variation moves before anything else
        return POS_INF;
    }
    let mut i: usize = 0;
    while i < KILLER_MOVE_PLY_SIZE
        invariant
            ply < 100,
            i <= KILLER_MOVE_PLY_SIZE,
            mov.last_move != search_info.pv_moves[ply as int],
            forall|j: int| 0 <= j < i ==> #[trigger] search_info.killer_moves[ply as int][j] != mov.zobrist_key,
        decreases KILLER_MOVE_PLY_SIZE - i,
    {
        if mov.zobrist_key == search_info.killer_moves[ply][i] {
            return KILLER_MOVE_SCORE;
        }
        i = i + 1;
    }
    mov.order_heuristic
}

/// Puts the principal variation move first and the killer moves right behind the good
/// captures, then sorts the moves by their scores.
fn order_moves(moves: &mut Vec<BoardState>, search_info: &SearchContext, ply: usize)
    requires
        ply < 100,
        forall|x: BoardState| #[trigger] old(moves)@.contains(x) ==> searchable(x),
    ensures
        final(moves)@.len() == old(moves)@.len(),
        final(moves)@.to_multiset() == ranked_moves(old(moves)@, *search_info, ply as int).to_multiset(),
        forall|x: BoardState| #[trigger] final(moves)@.contains(x) ==> searchable(x),
        ordered(final(moves)@),
{
    let mut k: usize = 0;
    proof {
        assert forall|j: int| 0 <= j < moves@.len() implies searchable(#[trigger] moves@[j]) by {
            assert(old(moves)@.contains(moves@[j]));
        }
    }
    while k < moves.len()
        invariant
            ply < 100,
            k <= moves.len(),
            moves@.len() == old(moves)@.len(),
            forall|j: int| 0 <= j < moves@.len() ==> searchable(#[trigger] moves@[j]),
            forall|x: BoardState| #[trigger] old(moves)@.contains(x) ==> searchable(x),
            forall|j: int| k <= j < moves@.len() ==> #[trigger] moves@[j] == old(moves)@[j],
            forall|j: int| 0 <= j < k ==> #[trigger] moves@[j] == with_rank(old(moves)@[j], *search_info, ply as int),
        decreases moves.len() - k,
    {
        proof {
            assert(old(moves)@.contains(old(moves)@[k as int]));
        }
        let mut mov = moves[k];
        let score = move_score(&mov, search_info, ply);
        let ghost before = mov;
        mov.order_heuristic = score;
        proof {
            lemma_searchable_same_frame(before, mov);
        }
        moves.set(k, mov);
        k = k + 1;
    }
    proof {
        assert forall|x: BoardState| #[trigger] moves@.contains(x) implies searchable(x) by {
            let j = choose|j: int| 0 <= j < moves@.len() && moves@[j] == x;
        }
    }
    let ghost ranked = moves@;
    assert(ranked =~= ranked_moves(old(moves)@, *search_info, ply as int));
    sort_moves(moves);
    proof {
        assert(moves@.len() == moves@.to_multiset().len());
        assert(ranked.len() == ranked.to_multiset().len());
        assert forall|x: BoardState| #[trigger] moves@.contains(x) implies searchable(x) by {
            assert(moves@.to_multiset().count(x) > 0);
            assert(ranked.contains(x));
        }
    }
}

/// Entering a position gives one more sighting of it, which leaves room for a search one
/// ply deeper.
proof fn lemma_room_after_entry(m: Map<u64, u8>, m0: Map<u64, u8>, key: u64, ply: int, child_ply: int)
    requires
        one_more(m, m0, key),
        room_for(m0, ply),
        child_ply >= ply + 1,
    ensures
        room_for(m, child_ply),
{
    assert forall|k: u64| #[trigger] seen(m, k) + MAX_PLY - child_ply < 255 by {
        assert(seen(m0, k) + MAX_PLY - ply < 255);
    }
}

/// A deeper search that keeps every count keeps the one extra sighting.
proof fn lemma_child_keeps(m: Map<u64, u8>, after: Map<u64, u8>, m0: Map<u64, u8>, key: u64, ply: int, child_ply: int)
    requires
        one_more(m, m0, key),
        room_for(m0, ply),
        child_ply >= ply + 1,
        room_for(m, child_ply) ==> same_counts(after, m),
    ensures
        one_more(after, m0, key),
{
    lemma_room_after_entry(m, m0, key, ply, child_ply);
    assert forall|k: u64| #[trigger] seen(after, k) == seen(m0, k) + if k == key { 1int } else { 0int } by {
        assert(seen(after, k) == seen(m, k));
    }
}

/// Taking back the extra sighting restores every count.
proof fn lemma_release_restores(m: Map<u64, u8>, m0: Map<u64, u8>, key: u64)
    requires
        one_more(m, m0, key),
    ensures
        same_counts(released(m, key), m0),
{
    assert(seen(m, key) == seen(m0, key) + 1);
    assert forall|k: u64| #[trigger] seen(released(m, key), k) == seen(m0, k) by {
        assert(seen(m, k) == seen(m0, k) + if k == key { 1int } else { 0int });
    }
}

/// `b` with its Zobrist key computed afresh.
pub open spec fn keyed(b: BoardState, h: ZobristHasher) -> BoardState {
    BoardState { zobrist_key: position_key(h, b), ..b }
}

/// Gives every generated position its own Zobrist key.
fn key_moves(moves: &mut Vec<BoardState>, zobrist_hasher: &ZobristHasher)
    requires
        forall|x: BoardState| #[trigger] old(moves)@.contains(x) ==> searchable(x),
    ensures
        final(moves)@.len() == old(moves)@.len(),
        forall|i: int| 0 <= i < old(moves)@.len() ==> #[trigger] final(moves)@[i] == keyed(old(moves)@[i], *zobrist_hasher),
        forall|x: BoardState| #[trigger] final(moves)@.contains(x) ==> searchable(x),
{
    let ghost m0 = moves@;
    let mut i: usize = 0;
    while i < moves.len()
        invariant
            i <= moves.len(),
            moves@.len() == m0.len(),
            forall|x: BoardState| #[trigger] m0.contains(x) ==> searchable(x),
            forall|j: int| 0 <= j < i ==> #[trigger] moves@[j] == keyed(m0[j], *zobrist_hasher),
            forall|j: int| i <= j < moves@.len() ==> #[trigger] moves@[j] == m0[j],
        decreases moves.len() - i,
    {
        let mut m = moves[i];
        proof {
            assert(m0.contains(m0[i as int]));
        }
        let k = m.compute_key(zobrist_hasher);
        m.zobrist_key = k;
        moves.set(i, m);
        i = i + 1;
    }
    proof {
        assert forall|x: BoardState| #[trigger] moves@.contains(x) implies searchable(x) by {
            let j = choose|j: int| 0 <= j < moves@.len() && moves@[j] == x;
            assert(m0.contains(m0[j]));
            lemma_searchable_same_frame(m0[j], x);
        }
    }
}

/// A time budget that the clock cannot use up: more milliseconds than any duration holds.
pub open spec fn clock_free(time_to_move_ms: u128) -> bool {
    time_to_move_ms > MAX_MILLIS
}

/// Every position keeps its count from `m0` in `m` (a position without an entry counts zero).
pub open spec fn same_counts(m: Map<u64, u8>, m0: Map<u64, u8>) -> bool {
    forall|k: u64| #[trigger] seen(m, k) == seen(m0, k)
}

/// `m` is `m0` with one more sighting of `key`.
pub open spec fn one_more(m: Map<u64, u8>, m0: Map<u64, u8>, key: u64) -> bool {
    forall|k: u64| #[trigger] seen(m, k) == seen(m0, k) + if k == key { 1int } else { 0int }
}

/// Every count leaves room for the sightings a search from `ply` can add along one line.
pub open spec fn room_for(m: Map<u64, u8>, ply: int) -> bool {
    forall|k: u64| #[trigger] seen(m, k) + MAX_PLY - ply < 255
}

/// The window's lower end after mate distance pruning at `ply`.
pub open spec fn mate_floor(alpha: int, ply: int) -> int {
    if alpha < -MATE_SCORE + ply { -MATE_SCORE + ply } else { alpha }
}

/// The window's upper end after mate distance pruning at `ply`.
pub open spec fn mate_ceiling(beta: int, ply: int) -> int {
    if beta > MATE_SCORE - ply { MATE_SCORE - ply } else { beta }
}

/// Every answer `stop` can give is "stop".
pub open spec fn always_stops<F: Fn() -> bool>(stop: F) -> bool {
    forall|x: bool| stop.ensures((), x) ==> x
}

/// Every answer `stop` can give is "go on".
pub open spec fn never_stops<F: Fn() -> bool>(stop: F) -> bool {
    forall|x: bool| stop.ensures((), x) ==> !x
}

/// The alpha beta search of `board`, which gives up with `NEG_INF` as soon as a call of `stop`
/// says so. `stop` is asked once at every position the search enters.
#[verifier::spinoff_prover]
#[verifier::rlimit(80)]
pub fn search_until<F: Fn() -> bool>(
    stop: &F,
    board: &BoardState,
    depth: u8,
    ply_from_root: i32,
    alpha: i32,
    beta: i32,
    search_info: &mut SearchContext,
    allow_null: bool,
    zobrist_hasher: &ZobristHasher,
    draw_table: &mut DrawTable,
) -> (r: i32)
    requires
        stop.requires(()),
        searchable(*board),
        0 <= ply_from_root <= MAX_PLY,
        allow_null ==> ply_from_root <= MAX_DEPTH,
        i32::MIN < alpha,
        i32::MIN < beta,
    ensures
        i32::MIN < r,
        NEG_INF <= alpha <= POS_INF && NEG_INF <= beta <= POS_INF ==> NEG_INF <= r <= POS_INF,
        always_stops(*stop) ==> r == NEG_INF,
        // a position already seen twice is a draw, unless the time ran out first
        old(draw_table).table@.contains_key(board.zobrist_key) && old(draw_table).table@[board.zobrist_key]
            == 2 ==> r == 0 || r == NEG_INF,
        // being mated scores the distance to the mate, or alpha when the window is already
        // closed, unless the time ran out first
        !(old(draw_table).table@.contains_key(board.zobrist_key) && old(draw_table).table@[board.zobrist_key]
            == 2) && in_check(*board, board.to_move) && (forall|s: BoardState|
            !generated(*board, MoveGenerationMode::AllMoves, s)) ==> r == NEG_INF || r == ply_from_root
            - MATE_SCORE || r == alpha,
        // when the clock cannot run out: a repeated position is a draw, nothing else changes
        // but the node count
        never_stops(*stop) && seen(old(draw_table).table@, board.zobrist_key) == 2 ==> {
            &&& r == 0
            &&& final(draw_table).table@ == old(draw_table).table@
            &&& *final(search_info) == (SearchContext {
                nodes_searched: old(search_info).nodes_searched.wrapping_add(1),
                ..*old(search_info)
            })
        },
        // checkmate scores the distance to the mate (or the closed window's lower end)
        never_stops(*stop) && seen(old(draw_table).table@, board.zobrist_key) != 2 && in_check(
            *board,
            board.to_move,
        ) && (forall|s: BoardState| !generated(*board, MoveGenerationMode::AllMoves, s)) ==> r == if mate_floor(
            alpha as int,
            ply_from_root as int,
        ) >= mate_ceiling(beta as int, ply_from_root as int) {
            mate_floor(alpha as int, ply_from_root as int)
        } else {
            ply_from_root - MATE_SCORE
        },
        // stalemate is a draw (when no null move is tried first)
        never_stops(*stop) && seen(old(draw_table).table@, board.zobrist_key) != 2 && !in_check(
            *board,
            board.to_move,
        ) && (forall|s: BoardState| !generated(*board, MoveGenerationMode::AllMoves, s)) && depth >= 1 && !(
        allow_null && depth >= 3) ==> r == if mate_floor(alpha as int, ply_from_root as int) >= mate_ceiling(
            beta as int,
            ply_from_root as int,
        ) {
            mate_floor(alpha as int, ply_from_root as int)
        } else {
            0
        },
        // at depth zero a quiet position is resolved by the capture search
        never_stops(*stop) && seen(old(draw_table).table@, board.zobrist_key) != 2 && depth == 0
            && !in_check(*board, board.to_move) && alpha < beta ==> r == clamp(
            capture_value(*board),
            alpha as int,
            beta as int,
        ),
        // with time to spare the value stays strictly inside the search range unless the window
        // touches its end
        never_stops(*stop) && alpha < POS_INF ==> r < POS_INF,
        never_stops(*stop) && beta > NEG_INF ==> r > NEG_INF,
        // every sighting the search adds to the draw table is taken back before it returns
        never_stops(*stop) && room_for(old(draw_table).table@, ply_from_root as int) ==> same_counts(
            final(draw_table).table@,
            old(draw_table).table@,
        ),
    decreases (MAX_PLY - ply_from_root) * 256 + depth,
{
    let mut search_depth = depth;
    let mut alpha = alpha;
    let mut beta = beta;
    let ghost t0 = draw_table.table@;
    let ghost key = board.zobrist_key;
    let ghost track = never_stops(*stop) && room_for(t0, ply_from_root as int);
    // we are out of time, exit the search
    if stop() {
        remove_board_from_draw_table(board, draw_table);
        return NEG_INF;
    }
    search_info.node_searched();
    // check for three fold repetition
    if enter_position(board, draw_table) {
        return 0;  // this position has been seen twice before, so its a draw, return an eval of 0
    }
    proof {
        if track {
            assert(seen(t0, key) < 255);
            assert(one_more(draw_table.table@, t0, key));
        }
    }
    if search_depth == 0 {
        // need to resolve check before we enter quiesce
        if is_check(board, board.to_move) {
            search_depth = search_depth + 1;
        } else {
            proof {
                if track {
                    lemma_release_restores(draw_table.table@, t0, key);
                }
            }
            remove_board_from_draw_table(board, draw_table);
            return quiesce(board, alpha, beta, search_info);
        }
    }
    // Skip this position if a mating sequence has already been found earlier in
    // the search, which would be shorter than any mate we could find from here.
    if alpha < -MATE_SCORE + ply_from_root {
        alpha = -MATE_SCORE + ply_from_root;
    }
    if beta > MATE_SCORE - ply_from_root {
        beta = MATE_SCORE - ply_from_root;
    }
    if alpha >= beta {
        proof {
            if track {
                lemma_release_restores(draw_table.table@, t0, key);
            }
        }
        remove_board_from_draw_table(board, draw_table);
        return alpha;
    }
    // Null move pruning https://www.chessprogramming.org/Null_Move_Pruning
    // With R = 2
    if allow_null && search_depth >= 3 && !is_check(board, board.to_move) {
        // allow this player to go again
        let mut b = *board;
        b.to_move = board.to_move.opposite();
        proof {
            lemma_searchable_same_frame(*board, b);
        }
        let ghost tb = draw_table.table@;
        let eval = -search_until(
            stop,
            &b,
            search_depth - 3,
            ply_from_root + 10,  //hack for now but passing in a large ply ensures we don't overwrite the pv
            -beta,
            -beta + 1,
            search_info,
            false,
            zobrist_hasher,
            draw_table,
        );
        proof {
            if track {
                lemma_child_keeps(tb, draw_table.table@, t0, key, ply_from_root as int, ply_from_root + 10);
            }
        }
        if eval >= beta {
            // null move prune
            proof {
                if track {
                    lemma_release_restores(draw_table.table@, t0, key);
                }
            }
            remove_board_from_draw_table(board, draw_table);
            return beta;
        }
    }
    let mut moves = generate_moves(board, MoveGenerationMode::AllMoves);
    if moves.len() == 0 {
        if is_check(board, board.to_move) {
            // checkmate
            proof {
                if track {
                    lemma_release_restores(draw_table.table@, t0, key);
                }
            }
            remove_board_from_draw_table(board, draw_table);
            let mate_score = MATE_SCORE - ply_from_root;
            return -mate_score;
        }
        // stalemate
        proof {
            if track {
                lemma_release_restores(draw_table.table@, t0, key);
            }
        }
        remove_board_from_draw_table(board, draw_table);
        return 0;
    }
    let ghost witness = moves@[0];
    proof {
        assert(moves@.contains(witness));
    }
    if ply_from_root >= MAX_DEPTH as i32 {
        // the move tables end here: the search stops and resolves captures only
        proof {
            if track {
                lemma_release_restores(draw_table.table@, t0, key);
            }
        }
        remove_board_from_draw_table(board, draw_table);
        return quiesce(board, alpha, beta, search_info);
    }
    let ply = ply_from_root as usize;
    proof {
        assert forall|x: BoardState| #[trigger] moves@.contains(x) implies searchable(x) by {
            lemma_generated_well_formed(*board, MoveGenerationMode::AllMoves, x);
        }
    }
    // every position gets its own key, for the draw table and the killer moves
    key_moves(&mut moves, zobrist_hasher);
    // rank killer moves and pv moves
    order_moves(&mut moves, search_info, ply);
    search_info.insert_into_cur_line(ply_from_root, &moves[0]);
    if moves[0].order_heuristic != POS_INF {
        search_info.set_principle_variation();
    }
    proof {
        assert(moves@.contains(moves@[0]));
    }
    // do a full search with what we think is the best move
    // which should be the first move in the array
    let ghost tb1 = draw_table.table@;
    let mut best_score = -search_until(
        stop,
        &moves[0],
        search_depth - 1,
        ply_from_root + 1,
        -beta,
        -alpha,
        search_info,
        true,
        zobrist_hasher,
        draw_table,
    );
    proof {
        if track {
            lemma_child_keeps(tb1, draw_table.table@, t0, key, ply_from_root as int, ply_from_root + 1);
        }
    }
    if best_score > alpha {
        if best_score >= beta {
            proof {
                if track {
                    lemma_release_restores(draw_table.table@, t0, key);
                }
            }
            remove_board_from_draw_table(board, draw_table);
            return best_score;
        }
        search_info.set_principle_variation();
        alpha = best_score;
    }
    // https://en.wikipedia.org/wiki/Principal_variation_search
    // try out all remaining moves with a reduced window
    let mut k: usize = 1;
    while k < moves.len()
        invariant
            stop.requires(()),
            1 <= k <= moves.len(),
            forall|x: BoardState| #[trigger] moves@.contains(x) ==> searchable(x),
            0 <= ply_from_root < MAX_DEPTH,
            ply == ply_from_root,
            1 <= search_depth,
            !(depth == 0 && !in_check(*board, board.to_move)),
            NEG_INF <= alpha < beta <= MATE_SCORE - ply_from_root,
            NEG_INF <= best_score < beta,
            never_stops(*stop) ==> NEG_INF < best_score,
            beta <= POS_INF,
            always_stops(*stop) ==> false,
            !(old(draw_table).table@.contains_key(board.zobrist_key) && old(draw_table).table@[board.zobrist_key]
                == 2),
            generated(*board, MoveGenerationMode::AllMoves, witness),
            t0 == old(draw_table).table@,
            key == board.zobrist_key,
            track == (never_stops(*stop) && room_for(t0, ply_from_root as int)),
            track ==> one_more(draw_table.table@, t0, key),
        decreases moves.len() - k,
    {
        let mov = &moves[k];
        proof {
            assert(moves@[k as int] == *mov);
            assert(moves@.contains(*mov));
        }
        search_info.insert_into_cur_line(ply_from_root, mov);
        // zero window search
        let ghost tb2 = draw_table.table@;
        let mut score = -search_until(
            stop,
            mov,
            search_depth - 1,
            ply_from_root + 1,
            -alpha - 1,
            -alpha,
            search_info,
            true,
            zobrist_hasher,
            draw_table,
        );
        proof {
            if track {
                lemma_child_keeps(tb2, draw_table.table@, t0, key, ply_from_root as int, ply_from_root + 1);
            }
        }
        if score > alpha && score < beta {
            // got a result outside our window, need to redo full search
            let ghost tb3 = draw_table.table@;
            score = -search_until(
                stop,
                mov,
                search_depth - 1,
                ply_from_root + 1,
                -beta,
                -alpha,
                search_info,
                true,
                zobrist_hasher,
                draw_table,
            );
            proof {
                if track {
                    lemma_child_keeps(tb3, draw_table.table@, t0, key, ply_from_root as int, ply_from_root + 1);
                }
            }
            if score > alpha {
                alpha = score;
            }
        }
        if score > best_score {
            if score >= beta {
                if mov.order_heuristic == i32::MIN {
                    search_info.insert_killer_move(ply_from_root, mov);
                }
                proof {
                    if track {
                        lemma_release_restores(draw_table.table@, t0, key);
                    }
                }
                remove_board_from_draw_table(board, draw_table);
                return score;
            }
            search_info.set_principle_variation();
            best_score = score;
        }
        k = k + 1;
    }
    proof {
        if track {
            lemma_release_restores(draw_table.table@, t0, key);
        }
    }
    remove_board_from_draw_table(board, draw_table);
    best_score
}

/*
    Run a standard alpha beta search to try and find the best move
    Orders moves by piece value to attempt to improve search efficiency
*/
/// The search gives up with `NEG_INF` once `time_to_move_ms` milliseconds have passed since
/// `start`; it is `search_until` with that check of the clock.
pub fn alpha_beta_search(
    start: Instant,
    time_to_move_ms: u128,
    board: &BoardState,
    depth: u8,
    ply_from_root: i32,
    alpha: i32,
    beta: i32,
    search_info: &mut SearchContext,
    allow_null: bool,
    zobrist_hasher: &ZobristHasher,
    draw_table: &mut DrawTable,
) -> (r: i32)
    requires
        searchable(*board),
        0 <= ply_from_root <= MAX_PLY,
        allow_null ==> ply_from_root <= MAX_DEPTH,
        i32::MIN < alpha,
        i32::MIN < beta,
    ensures
        i32::MIN < r,
        NEG_INF <= alpha <= POS_INF && NEG_INF <= beta <= POS_INF ==> NEG_INF <= r <= POS_INF,
        time_to_move_ms == 0 ==> r == NEG_INF,
        // a position already seen twice is a draw, unless the time ran out first
        old(draw_table).table@.contains_key(board.zobrist_key) && old(draw_table).table@[board.zobrist_key]
            == 2 ==> r == 0 || r == NEG_INF,
        // being mated scores the distance to the mate, or alpha when the window is already
        // closed, unless the time ran out first
        !(old(draw_table).table@.contains_key(board.zobrist_key) && old(draw_table).table@[board.zobrist_key]
            == 2) && in_check(*board, board.to_move) && (forall|s: BoardState|
            !generated(*board, MoveGenerationMode::AllMoves, s)) ==> r == NEG_INF || r == ply_from_root
            - MATE_SCORE || r == alpha,
        // when the clock cannot run out: a repeated position is a draw, nothing else changes
        // but the node count
        clock_free(time_to_move_ms) && seen(old(draw_table).table@, board.zobrist_key) == 2 ==> {
            &&& r == 0
            &&& final(draw_table).table@ == old(draw_table).table@
            &&& *final(search_info) == (SearchContext {
                nodes_searched: old(search_info).nodes_searched.wrapping_add(1),
                ..*old(search_info)
            })
        },
        // checkmate scores the distance to the mate (or the closed window's lower end)
        clock_free(time_to_move_ms) && seen(old(draw_table).table@, board.zobrist_key) != 2 && in_check(
            *board,
            board.to_move,
        ) && (forall|s: BoardState| !generated(*board, MoveGenerationMode::AllMoves, s)) ==> r == if mate_floor(
            alpha as int,
            ply_from_root as int,
        ) >= mate_ceiling(beta as int, ply_from_root as int) {
            mate_floor(alpha as int, ply_from_root as int)
        } else {
            ply_from_root - MATE_SCORE
        },
        // stalemate is a draw (when no null move is tried first)
        clock_free(time_to_move_ms) && seen(old(draw_table).table@, board.zobrist_key) != 2 && !in_check(
            *board,
            board.to_move,
        ) && (forall|s: BoardState| !generated(*board, MoveGenerationMode::AllMoves, s)) && depth >= 1 && !(
        allow_null && depth >= 3) ==> r == if mate_floor(alpha as int, ply_from_root as int) >= mate_ceiling(
            beta as int,
            ply_from_root as int,
        ) {
            mate_floor(alpha as int, ply_from_root as int)
        } else {
            0
        },
        // at depth zero a quiet position is resolved by the capture search
        clock_free(time_to_move_ms) && seen(old(draw_table).table@, board.zobrist_key) != 2 && depth == 0
            && !in_check(*board, board.to_move) && alpha < beta ==> r == clamp(
            capture_value(*board),
            alpha as int,
            beta as int,
        ),
        // with time to spare the value stays strictly inside the search range unless the window
        // touches its end
        clock_free(time_to_move_ms) && alpha < POS_INF ==> r < POS_INF,
        clock_free(time_to_move_ms) && beta > NEG_INF ==> r > NEG_INF,
        // every sighting the search adds to the draw table is taken back before it returns
        clock_free(time_to_move_ms) && room_for(old(draw_table).table@, ply_from_root as int) ==> same_counts(
            final(draw_table).table@,
            old(draw_table).table@,
        ),
{
    let stop = || -> (r: bool)
        ensures
            time_to_move_ms == 0 ==> r,
            clock_free(time_to_move_ms) ==> !r,
        { out_of_time(start, time_to_move_ms) };
    proof {
        if time_to_move_ms == 0 {
            assert(always_stops(stop));
        }
        if clock_free(time_to_move_ms) {
            assert(never_stops(stop));
        }
    }
    search_until(&stop, board, depth, ply_from_root, alpha, beta, search_info, allow_null, zobrist_hasher, draw_table)
}

// ---------------------------------------------------------------------------------------
// Iterative deepening at the root.

/// `b` is a move generated from `root`, its ordering score aside.
pub open spec fn legal_reply(root: BoardState, b: BoardState) -> bool {
    exists|g: BoardState|
        #[trigger] generated(root, MoveGenerationMode::AllMoves, g) && b == (BoardState {
            order_heuristic: b.order_heuristic,
            zobrist_key: b.zobrist_key,
            ..g
        })
}

/// What the root search asks its caller to do.
pub enum RootAction {
    /// A better move was found: send it on, and report the search state with `info`.
    Report { board: BoardState, info: String },
    /// Time is up: send `fallback` if there is one, and stop.
    Stop { fallback: Option<BoardState> },
    /// Every depth was searched.
    Done,
}

/// The state of an iterative deepening search from one position, between two reports.
pub struct RootSearch {
    board: BoardState,
    moves: Vec<BoardState>,
    next: usize,
    cur_depth: u8,
    alpha: i32,
    best_move: Option<BoardState>,
    search_info: SearchContext,
    zobrist_hasher: ZobristHasher,
}

impl RootSearch {
    /// The invariant: every move held, and the best move found, is a legal reply.
    pub closed spec fn well_formed(&self) -> bool {
        &&& searchable(self.board)
        &&& forall|x: BoardState| #[trigger] self.moves@.contains(x) ==> legal_reply(self.board, x) && searchable(x)
        &&& self.best_move matches Some(b) ==> legal_reply(self.board, b)
        &&& self.next <= self.moves@.len()
        &&& NEG_INF <= self.alpha <= POS_INF
        &&& 1 <= self.cur_depth <= MAX_DEPTH
    }

    /// The depth being searched.
    pub closed spec fn depth(&self) -> int {
        self.cur_depth as int
    }

    /// The best score found so far at this depth (the lower end of the search window).
    pub closed spec fn score(&self) -> int {
        self.alpha as int
    }

    /// The moves held for the root position, in their current order.
    pub closed spec fn held(&self) -> Seq<BoardState> {
        self.moves@
    }

    /// How many of this depth's moves have been searched.
    pub closed spec fn searched(&self) -> int {
        self.next as int
    }

    /// The search report for the current state, `elapsed` milliseconds into the search.
    pub closed spec fn info_at(&self, elapsed: u128) -> Seq<char> {
        info_text(self.search_info.pv_moves@, self.cur_depth, self.search_info.nodes_searched, self.alpha, elapsed)
    }

    /// The position being searched.
    pub closed spec fn root(&self) -> BoardState {
        self.board
    }

    /// The best move reported so far, if any.
    pub closed spec fn best_found(&self) -> Option<BoardState> {
        self.best_move
    }

    /// The hasher that keys the boards handed out.
    pub closed spec fn hasher(&self) -> ZobristHasher {
        self.zobrist_hasher
    }

    /// Starts a search of `board` at depth one.
    pub fn new(board: &BoardState) -> (r: RootSearch)
        requires
            searchable(*board),
        ensures
            r.well_formed(),
            r.root() == *board,
            r.best_found() == None::<BoardState>,
            r.held() == move_list(*board, MoveGenerationMode::AllMoves),
            r.hasher().is_seeded(),
            r.depth() == 1,
            r.searched() == 0,
            r.score() == NEG_INF,
    {
        let moves = generate_moves(board, MoveGenerationMode::AllMoves);
        proof {
            assert forall|x: BoardState| #[trigger] moves@.contains(x) implies legal_reply(*board, x) && searchable(x) by {
                lemma_generated_well_formed(*board, MoveGenerationMode::AllMoves, x);
                assert(x == (BoardState { order_heuristic: x.order_heuristic, zobrist_key: x.zobrist_key, ..x }));
            }
        }
        RootSearch {
            board: *board,
            moves,
            next: 0,
            cur_depth: 1,
            alpha: NEG_INF,
            best_move: None,
            search_info: SearchContext::new_search(),
            zobrist_hasher: ZobristHasher::create_zobrist_hasher(),
        }
    }

    /// Starts a depth: the window opens fully and the moves are sorted by their scores.
    fn begin_depth(&mut self)
        requires
            old(self).well_formed(),
        ensures
            final(self).well_formed(),
            final(self).board == old(self).board,
            final(self).zobrist_hasher == old(self).zobrist_hasher,
            final(self).moves@.len() == old(self).moves@.len(),
            final(self).next == old(self).next,
            final(self).cur_depth == old(self).cur_depth,
            final(self).best_move == old(self).best_move,
            final(self).alpha == NEG_INF,
            final(self).moves@.to_multiset() == old(self).moves@.to_multiset(),
            ordered(final(self).moves@),
            final(self).search_info.killer_moves == old(self).search_info.killer_moves,
            final(self).search_info.pv_moves == old(self).search_info.pv_moves,
            final(self).search_info.nodes_searched == 0,
            forall|i: int| 0 <= i < 100 ==> #[trigger] final(self).search_info.cur_line[i] == None::<(Point, Point)>,
    {
        let ghost root = self.board;
        self.alpha = NEG_INF;
        self.search_info.reset_search();
        let ghost before = self.moves@;
        sort_moves(&mut self.moves);
        proof {
            assert(self.moves@.len() == self.moves@.to_multiset().len());
            assert(before.len() == before.to_multiset().len());
            assert forall|x: BoardState| #[trigger] self.moves@.contains(x) implies legal_reply(root, x) && searchable(x) by {
                assert(self.moves@.to_multiset().count(x) > 0);
                assert(before.contains(x));
            }
        }
    }

    /// Moves on to the next depth: the moves are generated afresh, the best move so far first.
    fn next_depth(&mut self)
        requires
            old(self).well_formed(),
            old(self).cur_depth < MAX_DEPTH,
        ensures
            final(self).well_formed(),
            final(self).board == old(self).board,
            final(self).zobrist_hasher == old(self).zobrist_hasher,
            final(self).next == 0,
            final(self).cur_depth == old(self).cur_depth + 1,
            final(self).best_move == old(self).best_move,
    {
        let ghost root = self.board;
        let mut moves = generate_moves(&self.board, MoveGenerationMode::AllMoves);
        proof {
            assert forall|x: BoardState| #[trigger] moves@.contains(x) implies legal_reply(root, x) && searchable(x) by {
                lemma_generated_well_formed(root, MoveGenerationMode::AllMoves, x);
                assert(x == (BoardState { order_heuristic: x.order_heuristic, zobrist_key: x.zobrist_key, ..x }));
            }
        }
        match &self.best_move {
            Some(b) => {
                let mut k: usize = 0;
                while k < moves.len()
                    invariant
                        k <= moves.len(),
                        forall|x: BoardState| #[trigger] moves@.contains(x) ==> legal_reply(root, x) && searchable(x),
                    decreases moves.len() - k,
                {
                    if same_move(moves[k].last_move, b.last_move) {
                        let mut mov = moves[k];
                        let ghost before = mov;
                        proof {
                            assert(moves@.contains(before));
                        }
                        mov.order_heuristic = POS_INF;
                        let ghost old_moves = moves@;
                        moves.set(k, mov);
                        proof {
                            lemma_searchable_same_frame(before, mov);
                            let g = choose|g: BoardState| #[trigger] generated(root, MoveGenerationMode::AllMoves, g) && before == (BoardState { order_heuristic: before.order_heuristic, zobrist_key: before.zobrist_key, ..g });
                            assert(mov == (BoardState { order_heuristic: mov.order_heuristic, zobrist_key: mov.zobrist_key, ..g }));
                            assert forall|x: BoardState| #[trigger] moves@.contains(x) implies legal_reply(root, x) && searchable(x) by {
                                let j = choose|j: int| 0 <= j < moves@.len() && moves@[j] == x;
                                if j != k {
                                    assert(old_moves.contains(old_moves[j]));
                                }
                            }
                        }
                        break;
                    }
                    k = k + 1;
                }
            },
            None => {},
        }
        self.moves = moves;
        self.next = 0;
        self.cur_depth = self.cur_depth + 1;
    }

    /// Takes in the value `child` that the search gave the held move `mov` (keyed afresh),
    /// `stopped` telling whether the time was found to be up once the move beat the best score,
    /// and `elapsed` the milliseconds to report. The move counts as searched; it is reported, and
    /// becomes the best move with its negated value as the score, exactly when that value beats
    /// the score so far and the time was not up.
    pub fn settle(&mut self, mov: BoardState, child: i32, stopped: bool, elapsed: u128) -> (r: Option<RootAction>)
        requires
            old(self).well_formed(),
            old(self).searched() < old(self).held().len(),
            legal_reply(old(self).root(), mov),
            NEG_INF <= child <= POS_INF,
        ensures
            final(self).well_formed(),
            final(self).root() == old(self).root(),
            final(self).held() == old(self).held(),
            final(self).depth() == old(self).depth(),
            final(self).searched() == old(self).searched() + 1,
            final(self).hasher() == old(self).hasher(),
            r is Some <==> -child > old(self).score() && !stopped,
            r matches Some(a) ==> a is Report,
            r matches Some(RootAction::Report { board, info }) ==> board == mov && final(self).score() == -child
                && final(self).best_found() == Some(mov) && info@ == final(self).info_at(elapsed),
            r is None ==> final(self).score() == old(self).score() && final(self).best_found() == old(
                self,
            ).best_found(),
    {
        let held_count = self.moves.len();
        self.search_info.insert_into_cur_line(0, &mov);
        proof {
            assert(self.next < held_count);
        }
        self.next = self.next + 1;
        let evaluation = -child;
        if evaluation > self.alpha && !stopped {
            //alpha raised, remember this line as the pv
            self.alpha = evaluation;
            self.best_move = Some(mov);
            self.search_info.set_principle_variation();
            let info = search_info_message(&self.search_info, self.cur_depth, evaluation, elapsed);
            proof {
                assert(info@ == self.info_at(elapsed));
            }
            return Some(RootAction::Report { board: mov, info });
        }
        None
    }

    /// Searches on until there is something to report: a better move (every reported move is
    /// a legal reply to the root position, and becomes the best move found), the end of the
    /// time (with the first move as a fallback exactly when nothing was reported yet), or the
    /// end of the last depth. Every board handed out carries its own Zobrist key.
    pub fn step(&mut self, start: Instant, time_to_move_ms: u128, draw_table: &mut DrawTable) -> (r: RootAction)
        requires
            old(self).well_formed(),
        ensures
            final(self).well_formed(),
            final(self).root() == old(self).root(),
            final(self).hasher() == old(self).hasher(),
            match r {
                RootAction::Report { board, info } => legal_reply(old(self).root(), board)
                    && key_is_current(final(self).hasher(), board)
                    && final(self).best_found() == Some(board),
                RootAction::Stop { fallback } => (fallback matches Some(b) ==> legal_reply(old(self).root(), b)
                    && key_is_current(final(self).hasher(), b))
                    && (fallback is Some <==> old(self).best_found() is None)
                    && final(self).best_found() == old(self).best_found(),
                RootAction::Done => final(self).best_found() == old(self).best_found(),
            },
            time_to_move_ms == 0 ==> !(r is Report),
            // with a budget the clock cannot use up, the search never stops for time
            clock_free(time_to_move_ms) ==> !(r is Stop),
            // ... and the first move searched at a depth is always reported
            clock_free(time_to_move_ms) && old(self).searched() == 0 && old(self).held().len() > 0
                && old(self).depth() < MAX_DEPTH ==> r is Report,
            final(self).depth() >= old(self).depth(),
            r is Done <==> final(self).depth() == MAX_DEPTH,
            // a report gives the state of the search when the better move was found
            r matches RootAction::Report { info, .. } ==> exists|elapsed: u128| info@ == final(self).info_at(elapsed),
            r is Report ==> final(self).score() > NEG_INF,
            // within one depth, every report improves on the last
            r is Report && final(self).depth() == old(self).depth() && old(self).searched() > 0
                ==> final(self).score() > old(self).score(),
            // a reported move that mates scores a mate in one, when the clock cannot run out
            r matches RootAction::Report { board, .. } && clock_free(time_to_move_ms) && room_for(
                old(draw_table).table@,
                1,
            ) && seen(old(draw_table).table@, board.zobrist_key) != 2 && in_check(board, board.to_move)
                && (forall|s: BoardState| !generated(board, MoveGenerationMode::AllMoves, s))
                ==> final(self).score() == MATE_SCORE - 1,
            // each root move is searched one ply shallower than the root: at depth one a reported
            // quiet move scores its capture search value, ...
            r matches RootAction::Report { board, .. } ==> (clock_free(time_to_move_ms) && room_for(old(draw_table).table@, 1)
                && seen(old(draw_table).table@, board.zobrist_key) != 2 && !in_check(board, board.to_move)
                && final(self).depth() == 1 ==> final(self).score() == -capture_value(board)),
            // ... and at depths two and three a reported move that stalemates scores a draw
            r matches RootAction::Report { board, .. } && clock_free(time_to_move_ms) && room_for(old(draw_table).table@, 1)
                && seen(old(draw_table).table@, board.zobrist_key) != 2 && !in_check(board, board.to_move)
                && (forall|s: BoardState| !generated(board, MoveGenerationMode::AllMoves, s))
                && (final(self).depth() == 2 || final(self).depth() == 3) ==> final(self).score() == 0,
            // with time to spare the searches leave every count of the draw table as it was
            clock_free(time_to_move_ms) && room_for(old(draw_table).table@, 1) ==> same_counts(
                final(draw_table).table@,
                old(draw_table).table@,
            ),
    {
        let stop = || -> (r: bool)
            ensures
                time_to_move_ms == 0 ==> r,
                clock_free(time_to_move_ms) ==> !r,
            { out_of_time(start, time_to_move_ms) };
        let elapsed = || crate::utils::elapsed_ms(start);
        proof {
            if time_to_move_ms == 0 {
                assert(always_stops(stop));
            }
            if clock_free(time_to_move_ms) {
                assert(never_stops(stop));
            }
        }
        self.step_until(&stop, &elapsed, draw_table)
    }

    /// The root search step with its time check as `stop`, asked before each move is searched
    /// and again when a move beats the best score, and `elapsed` giving the milliseconds for a
    /// report.
    pub fn step_until<S: Fn() -> bool, E: Fn() -> u128>(&mut self, stop: &S, elapsed: &E, draw_table: &mut DrawTable) -> (r: RootAction)
        requires
            old(self).well_formed(),
            stop.requires(()),
            elapsed.requires(()),
        ensures
            final(self).well_formed(),
            final(self).root() == old(self).root(),
            final(self).hasher() == old(self).hasher(),
            match r {
                RootAction::Report { board, info } => legal_reply(old(self).root(), board)
                    && key_is_current(final(self).hasher(), board)
                    && final(self).best_found() == Some(board),
                RootAction::Stop { fallback } => (fallback matches Some(b) ==> legal_reply(old(self).root(), b)
                    && key_is_current(final(self).hasher(), b))
                    && (fallback is Some <==> old(self).best_found() is None)
                    && final(self).best_found() == old(self).best_found(),
                RootAction::Done => final(self).best_found() == old(self).best_found(),
            },
            always_stops(*stop) ==> !(r is Report),
            // with a budget the clock cannot use up, the search never stops for time
            never_stops(*stop) ==> !(r is Stop),
            // ... and the first move searched at a depth is always reported
            never_stops(*stop) && old(self).searched() == 0 && old(self).held().len() > 0
                && old(self).depth() < MAX_DEPTH ==> r is Report,
            final(self).depth() >= old(self).depth(),
            r is Done <==> final(self).depth() == MAX_DEPTH,
            // a report gives the state of the search when the better move was found
            r matches RootAction::Report { info, .. } ==> exists|elapsed: u128| info@ == final(self).info_at(elapsed),
            r is Report ==> final(self).score() > NEG_INF,
            // within one depth, every report improves on the last
            r is Report && final(self).depth() == old(self).depth() && old(self).searched() > 0
                ==> final(self).score() > old(self).score(),
            // a reported move that mates scores a mate in one, when the clock cannot run out
            r matches RootAction::Report { board, .. } && never_stops(*stop) && room_for(
                old(draw_table).table@,
                1,
            ) && seen(old(draw_table).table@, board.zobrist_key) != 2 && in_check(board, board.to_move)
                && (forall|s: BoardState| !generated(board, MoveGenerationMode::AllMoves, s))
                ==> final(self).score() == MATE_SCORE - 1,
            // each root move is searched one ply shallower than the root: at depth one a reported
            // quiet move scores its capture search value, ...
            r matches RootAction::Report { board, .. } ==> (never_stops(*stop) && room_for(old(draw_table).table@, 1)
                && seen(old(draw_table).table@, board.zobrist_key) != 2 && !in_check(board, board.to_move)
                && final(self).depth() == 1 ==> final(self).score() == -capture_value(board)),
            // ... and at depths two and three a reported move that stalemates scores a draw
            r matches RootAction::Report { board, .. } && never_stops(*stop) && room_for(old(draw_table).table@, 1)
                && seen(old(draw_table).table@, board.zobrist_key) != 2 && !in_check(board, board.to_move)
                && (forall|s: BoardState| !generated(board, MoveGenerationMode::AllMoves, s))
                && (final(self).depth() == 2 || final(self).depth() == 3) ==> final(self).score() == 0,
            // with time to spare the searches leave every count of the draw table as it was
            never_stops(*stop) && room_for(old(draw_table).table@, 1) ==> same_counts(
                final(draw_table).table@,
                old(draw_table).table@,
            ),
    {
        let ghost root = self.board;
        loop
            invariant
                stop.requires(()),
                elapsed.requires(()),
                self.well_formed(),
                self.board == root,
                root == old(self).board,
                self.zobrist_hasher == old(self).zobrist_hasher,
                self.best_move == old(self).best_move,
                self.cur_depth >= old(self).cur_depth,
                self.cur_depth == old(self).cur_depth && old(self).next > 0 ==> self.alpha == old(self).alpha
                    && self.next > 0,
                never_stops(*stop) && old(self).next == 0 && old(self).moves@.len() > 0
                    && old(self).cur_depth < MAX_DEPTH ==> self.cur_depth == old(self).cur_depth && self.next == 0
                    && self.moves@.len() == old(self).moves@.len(),
                never_stops(*stop) && room_for(old(draw_table).table@, 1) ==> same_counts(
                    draw_table.table@,
                    old(draw_table).table@,
                ),
            decreases MAX_DEPTH - self.cur_depth, self.moves@.len() - self.next,
        {
            if self.cur_depth >= MAX_DEPTH {
                return RootAction::Done;
            }
            if self.next == 0 {
                self.begin_depth();
            }
            if self.next >= self.moves.len() {
                self.next_depth();
                continue;
            }
            // make an effort to exit once we are out of time
            if stop() {
                // if we have not found a move to send back, send back the best move as determined by the order_heuristic
                // this can happen on very short time control situations
                if self.best_move.is_none() {
                    let first = self.moves[0];
                    proof {
                        assert(self.moves@.contains(first));
                    }
                    let fallback = self.keyed_move(first);
                    return RootAction::Stop { fallback: Some(fallback) };
                }
                return RootAction::Stop { fallback: None };
            }
            let held = self.moves[self.next];
            proof {
                assert(self.moves@.contains(held));
            }
            let mov = self.keyed_move(held);
            let ghost t_before = draw_table.table@;
            proof {
                if never_stops(*stop) && room_for(old(draw_table).table@, 1) {
                    assert forall|k: u64| #[trigger] seen(t_before, k) + MAX_PLY - 1 < 255 by {
                        assert(seen(old(draw_table).table@, k) + MAX_PLY - 1 < 255);
                    }
                }
            }
            let child = search_until(
                stop,
                &mov,
                self.cur_depth - 1,
                1,
                -POS_INF,
                -self.alpha,
                &mut self.search_info,
                true,
                &self.zobrist_hasher,
                draw_table,
            );
            proof {
                if never_stops(*stop) && room_for(old(draw_table).table@, 1) {
                    assert forall|k: u64| #[trigger] seen(draw_table.table@, k) == seen(old(draw_table).table@, k) by {
                        assert(seen(t_before, k) == seen(old(draw_table).table@, k));
                    }
                }
            }
            let stopped = -child > self.alpha && stop();
            let ms: u128 = if -child > self.alpha && !stopped {
                elapsed()
            } else {
                0
            };
            match self.settle(mov, child, stopped, ms) {
                Some(action) => {
                    return action;
                },
                None => {},
            }
        }
    }

    /// A held move with its Zobrist key computed afresh.
    fn keyed_move(&self, held: BoardState) -> (r: BoardState)
        requires
            self.well_formed(),
            self.moves@.contains(held),
        ensures
            legal_reply(self.board, r),
            searchable(r),
            key_is_current(self.zobrist_hasher, r),
            r == (BoardState { zobrist_key: r.zobrist_key, ..held }),
    {
        let mut mov = held;
        mov.zobrist_key = held.compute_key(&self.zobrist_hasher);
        proof {
            lemma_searchable_same_frame(held, mov);
            let g = choose|g: BoardState| #[trigger] generated(self.board, MoveGenerationMode::AllMoves, g) && held == (BoardState { order_heuristic: held.order_heuristic, zobrist_key: held.zobrist_key, ..g });
            assert(mov == (BoardState { order_heuristic: mov.order_heuristic, zobrist_key: mov.zobrist_key, ..g }));
        }
        mov
    }
}

/// The line of moves of the principal variation, each as ` ` and its two squares, up to the
/// first empty entry.
pub open spec fn pv_text(pv: Seq<Option<(Point, Point)>>, n: nat) -> Seq<char>
    decreases n,
{
    if n == 0 {
        Seq::empty()
    } else if pv_text_ends(pv, (n - 1) as nat) {
        pv_text(pv, (n - 1) as nat)
    } else {
        match pv[n - 1] {
            Some(m) => pv_text(pv, (n - 1) as nat) + seq![' '] + algebraic(m.0) + algebraic(m.1),
            None => pv_text(pv, (n - 1) as nat),
        }
    }
}

/// Whether an empty entry occurs among the first `n` entries.
pub open spec fn pv_text_ends(pv: Seq<Option<(Point, Point)>>, n: nat) -> bool
    decreases n,
{
    n > 0 && (pv[n - 1] is None || pv_text_ends(pv, (n - 1) as nat))
}

/// How far from mate a score is, when it is within the mate window: moves to mate for the
/// side that mates (positive) or is mated (negative).
pub open spec fn mate_distance(eval: int) -> int {
    if eval >= MATE_SCORE - 15 {
        trunc_div(MATE_SCORE - eval + 1, 2)
    } else {
        trunc_div(MATE_SCORE + eval, -2)
    }
}

/// Division rounding toward zero.
pub open spec fn trunc_div(a: int, b: int) -> int {
    if a >= 0 {
        if b > 0 { a / b } else { -(a / -b) }
    } else {
        if b > 0 { -((-a) / b) } else { (-a) / (-b) }
    }
}

/// The `info` line reporting a search: the principal variation, the depth, the nodes
/// searched, the score (in moves to mate when a mate is near, else in centipawns) and the
/// time spent.
pub open spec fn info_text(pv: Seq<Option<(Point, Point)>>, depth: u8, nodes: u32, eval: i32, elapsed: u128) -> Seq<char> {
    let near_mate = eval >= MATE_SCORE - 15 || eval <= -MATE_SCORE + 15;
    "info pv"@ + pv_text(pv, 100) + " depth "@ + decimal_text(depth as nat) + " nodes "@
        + decimal_text(nodes as nat) + if near_mate {
        " score mate "@ + signed_text(mate_distance(eval as int))
    } else {
        " score cp "@ + signed_text(eval as int)
    } + " time "@ + decimal_text(elapsed as nat)
}

/*
    The information about the current search status that is sent to the GUI
*/
pub fn search_info_message(search_info: &SearchContext, depth: u8, eval: i32, elapsed: u128) -> (r: String)
    ensures
        r@ == info_text(search_info.pv_moves@, depth, search_info.nodes_searched, eval, elapsed),
{
    let mut text = chars_of("info pv");
    let ghost head = text@;
    let mut i: usize = 0;
    let mut ended = false;
    while i < 100
        invariant
            i <= 100,
            ended == pv_text_ends(search_info.pv_moves@, i as nat),
            text@ == head + pv_text(search_info.pv_moves@, i as nat),
        decreases 100 - i,
    {
        if !ended {
            match search_info.pv_moves[i] {
                Some(m) => {
                    text.push(' ');
                    append(&mut text, &chars_of(m.0.to_algebraic().as_str()));
                    append(&mut text, &chars_of(m.1.to_algebraic().as_str()));
                },
                None => {
                    ended = true;
                },
            }
        }
        assert(text@ =~= head + pv_text(search_info.pv_moves@, (i + 1) as nat));
        i = i + 1;
    }
    append(&mut text, &chars_of(" depth "));
    push_decimal(&mut text, depth as u128);
    append(&mut text, &chars_of(" nodes "));
    push_decimal(&mut text, search_info.nodes_searched as u128);
    let mate_window: i32 = 15;
    if eval >= MATE_SCORE - mate_window {
        // this player is threatening checkmate
        append(&mut text, &chars_of(" score mate "));
        let moves_to_mate: i32 = (MATE_SCORE - eval + 1) / 2;
        assert(moves_to_mate == mate_distance(eval as int));
        push_signed(&mut text, moves_to_mate as i64);
    } else if eval <= -MATE_SCORE + mate_window {
        // this player is getting matted
        append(&mut text, &chars_of(" score mate "));
        let moves_to_mate: i32 = (MATE_SCORE + eval) / -2;
        assert(moves_to_mate == mate_distance(eval as int));
        push_signed(&mut text, moves_to_mate as i64);
    } else {
        append(&mut text, &chars_of(" score cp "));
        push_signed(&mut text, eval as i64);
    }
    append(&mut text, &chars_of(" time "));
    push_decimal(&mut text, elapsed);
    assert(text@ =~= info_text(search_info.pv_moves@, depth, search_info.nodes_searched, eval, elapsed));
    string_of(&text)
}

/// Whether a position can be searched: its frame is intact, both kings stand on the board,
/// and an en passant target lies on the board.
pub fn is_searchable(board: &BoardState) -> (r: bool)
    ensures
        r == searchable(*board),
{
    let mut i: usize = 0;
    while i < 12
        invariant
            i <= 12,
            forall|r: int, c: int|
                0 <= r < i && 0 <= c < 12 && !(2 <= r < 10 && 2 <= c < 10) ==> #[trigger] cell(*board, r, c)
                    == Square::Boundary,
        decreases 12 - i,
    {
        let mut j: usize = 0;
        while j < 12
            invariant
                i < 12,
                j <= 12,
                forall|r: int, c: int|
                    0 <= r < i && 0 <= c < 12 && !(2 <= r < 10 && 2 <= c < 10) ==> #[trigger] cell(*board, r, c)
                        == Square::Boundary,
                forall|c: int|
                    0 <= c < j && !(2 <= i < 10 && 2 <= c < 10) ==> #[trigger] cell(*board, i as int, c)
                        == Square::Boundary,
            decreases 12 - j,
        {
            if !(2 <= i && i < 10 && 2 <= j && j < 10) {
                match board.board[i][j] {
                    Square::Boundary => {},
                    _ => {
                        assert(!crate::move_generation::frame_ok(*board)) by {
                            assert(cell(*board, i as int, j as int) != Square::Boundary);
                        }
                        return false;
                    },
                }
            }
            j = j + 1;
        }
        i = i + 1;
    }
    assert(crate::move_generation::frame_ok(*board));
    let w = board.white_king_location;
    let b = board.black_king_location;
    let kings = 2 <= w.0 && w.0 < 10 && 2 <= w.1 && w.1 < 10 && 2 <= b.0 && b.0 < 10 && 2 <= b.1
        && b.1 < 10;
    let target = match board.pawn_double_move {
        Some(p) => 2 <= p.0 && p.0 < 10 && 2 <= p.1 && p.1 < 10,
        None => true,
    };
    kings && target
}

/// A score within fifteen of the mate score is reported as a mate counted in moves: a win
/// `MATE_SCORE - eval` plies away is a mate in `(MATE_SCORE - eval + 1) / 2`, a loss
/// `MATE_SCORE + eval` plies away a mate in minus `(MATE_SCORE + eval) / 2`; every other
/// score is reported in centipawns.
pub proof fn lemma_mate_scores_reported_as_mates(
    pv: Seq<Option<(Point, Point)>>,
    depth: u8,
    nodes: u32,
    eval: i32,
    elapsed: u128,
)
    ensures
        ({
            let head = "info pv"@ + pv_text(pv, 100) + " depth "@ + decimal_text(depth as nat) + " nodes "@
                + decimal_text(nodes as nat);
            let tail = " time "@ + decimal_text(elapsed as nat);
            let text = info_text(pv, depth, nodes, eval, elapsed);
            &&& MATE_SCORE - 15 <= eval <= MATE_SCORE ==> text == head + " score mate "@ + signed_text(
                (MATE_SCORE - eval + 1) / 2,
            ) + tail
            &&& -MATE_SCORE <= eval <= -MATE_SCORE + 15 ==> text == head + " score mate "@ + signed_text(
                -((MATE_SCORE + eval) / 2),
            ) + tail
            &&& -MATE_SCORE + 15 < eval < MATE_SCORE - 15 ==> text == head + " score cp "@ + signed_text(
                eval as int,
            ) + tail
        }),
{
    let head = "info pv"@ + pv_text(pv, 100) + " depth "@ + decimal_text(depth as nat) + " nodes "@
        + decimal_text(nodes as nat);
    let tail = " time "@ + decimal_text(elapsed as nat);
    let text = info_text(pv, depth, nodes, eval, elapsed);
    if MATE_SCORE - 15 <= eval <= MATE_SCORE {
        assert(text =~= head + " score mate "@ + signed_text((MATE_SCORE - eval + 1) / 2) + tail);
    }
    if -MATE_SCORE <= eval <= -MATE_SCORE + 15 {
        assert(text =~= head + " score mate "@ + signed_text(-((MATE_SCORE + eval) / 2)) + tail);
    }
    if -MATE_SCORE + 15 < eval < MATE_SCORE - 15 {
        assert(text =~= head + " score cp "@ + signed_text(eval as int) + tail);
    }
}

/// A ray seen on one board is seen on any board with the same cells.
proof fn lemma_ray_frame(b1: BoardState, b2: BoardState, r: int, c: int, dr: int, dc: int, p1: Piece, p2: Piece)
    requires
        b1.board == b2.board,
        ray_hits(b1, r, c, dr, dc, p1, p2),
    ensures
        ray_hits(b2, r, c, dr, dc, p1, p2),
{
    let k = choose|k: int|
        k >= 1 && clear_between(b1, r, c, dr, dc, k) && (#[trigger] cell(b1, r + off(k, dr), c + off(k, dc))
            == Square::Full(p1) || cell(b1, r + off(k, dr), c + off(k, dc)) == Square::Full(p2));
    assert forall|j: int| 1 <= j < k implies #[trigger] cell(b2, r + off(j, dr), c + off(j, dc))
        == Square::Empty by {
        assert(cell(b1, r + off(j, dr), c + off(j, dc)) == Square::Empty);
    }
    assert(cell(b2, r + off(k, dr), c + off(k, dc)) == cell(b1, r + off(k, dr), c + off(k, dc)));
}

/// Whether a side is in check depends only on the board and the kings' squares.
pub proof fn lemma_check_frame(s: BoardState, x: BoardState, color: PieceColor)
    requires
        x.board == s.board,
        x.white_king_location == s.white_king_location,
        x.black_king_location == s.black_king_location,
    ensures
        in_check(x, color) == in_check(s, color),
{
    let sq = king_location(s, color);
    let a = color.spec_opposite();
    let (r, c) = (sq.0 as int, sq.1 as int);
    let rook = Piece { color: a, kind: PieceKind::Rook };
    let bishop = Piece { color: a, kind: PieceKind::Bishop };
    let queen = Piece { color: a, kind: PieceKind::Queen };
    assert forall|dr: int, dc: int, p1: Piece, p2: Piece|
        #[trigger] ray_hits(x, r, c, dr, dc, p1, p2) == #[trigger] ray_hits(s, r, c, dr, dc, p1, p2) by {
        if ray_hits(x, r, c, dr, dc, p1, p2) {
            lemma_ray_frame(x, s, r, c, dr, dc, p1, p2);
        }
        if ray_hits(s, r, c, dr, dc, p1, p2) {
            lemma_ray_frame(s, x, r, c, dr, dc, p1, p2);
        }
    }
    assert(ray_hits(x, r, c, 1, 0, rook, queen) == ray_hits(s, r, c, 1, 0, rook, queen));
    assert(ray_hits(x, r, c, -1, 0, rook, queen) == ray_hits(s, r, c, -1, 0, rook, queen));
    assert(ray_hits(x, r, c, 0, 1, rook, queen) == ray_hits(s, r, c, 0, 1, rook, queen));
    assert(ray_hits(x, r, c, 0, -1, rook, queen) == ray_hits(s, r, c, 0, -1, rook, queen));
    assert(ray_hits(x, r, c, 1, -1, bishop, queen) == ray_hits(s, r, c, 1, -1, bishop, queen));
    assert(ray_hits(x, r, c, 1, 1, bishop, queen) == ray_hits(s, r, c, 1, 1, bishop, queen));
    assert(ray_hits(x, r, c, -1, 1, bishop, queen) == ray_hits(s, r, c, -1, 1, bishop, queen));
    assert(ray_hits(x, r, c, -1, -1, bishop, queen) == ray_hits(s, r, c, -1, -1, bishop, queen));
}

} // verus!


