use crate::text::{
    append, string_of, chars_of, lemma_unsigned_literal_nonneg, parse_i128, parse_unsigned, signed_literal,
    unsigned_literal,
};
use crate::board::{
    board_key, castling_key, en_passant_part, key_is_current, lemma_board_key_update,
    lemma_xor_zero, moved, side_key, square_key, with_square, without_right, BoardState,
    CastlingType, Piece, PieceColor, PieceKind, Point, Square, BOARD_END, BOARD_START,
};
use crate::draw_table::{seen, with_sighting, DrawTable};
use crate::fen::{
    algebraic, fen_check, is_fen_position, lemma_default_fen_accepted, parse_point_chars, point_parse, Parsed,
    DEFAULT_FEN_STRING,
};
use crate::text::{has_byte_length, is_digit, utf8_len};
use crate::time_control::GameTime;
use crate::zobrist::{lemma_seeded_unique, ZobristHasher};
use vstd::prelude::*;

verus! {

broadcast use vstd::std_specs::hash::group_hash_axioms;

/// The words of a command line, each as its characters.
pub open spec fn words(commands: Seq<&str>) -> Seq<Seq<char>> {
    Seq::new(commands.len(), |j: int| commands[j]@)
}

/// Whether a string is exactly the word `w`.
pub fn same_word(s: &str, w: &str) -> (r: bool)
    ensures
        r == (s@ == w@),
{
    let a = chars_of(s);
    let b = chars_of(w);
    if a.len() != b.len() {
        return false;
    }
    let mut i: usize = 0;
    while i < a.len()
        invariant
            a.len() == b.len(),
            a@ == s@,
            b@ == w@,
            i <= a.len(),
            forall|j: int| 0 <= j < i ==> a@[j] == b@[j],
        decreases a.len() - i,
    {
        if a[i] != b[i] {
            assert(a@[i as int] != b@[i as int]);
            return false;
        }
        i = i + 1;
    }
    assert(a@ =~= b@);
    true
}

/// What one line of the protocol asks the engine to do.
#[derive(Copy, Clone, PartialEq, Eq, Debug, Structural)]
pub enum UciRequest {
    /// `isready`: answer `readyok`.
    Ready,
    /// `ucinewgame`: nothing to reset.
    NewGame,
    /// `position`: set up the position.
    Position,
    /// `go`: search and play a move.
    Go,
    /// `setoption` naming `DebugLogLevel` and `Info`: log to a file.
    LogToFile,
    /// Any other `setoption`.
    OtherOption,
    /// `quit`: stop.
    Quit,
    /// Anything else.
    Unrecognized,
}

/// Whether the word `x` occurs among the words `w`.
pub open spec fn has_word(w: Seq<Seq<char>>, x: Seq<char>) -> bool {
    exists|i: int| 0 <= i < w.len() && w[i] == x
}

/// The request made by a line split into the words `w`, by its first word.
pub open spec fn request_of(w: Seq<Seq<char>>) -> UciRequest {
    if w.len() == 0 {
        UciRequest::Unrecognized
    } else if w[0] == "isready"@ {
        UciRequest::Ready
    } else if w[0] == "ucinewgame"@ {
        UciRequest::NewGame
    } else if w[0] == "position"@ {
        UciRequest::Position
    } else if w[0] == "go"@ {
        UciRequest::Go
    } else if w[0] == "setoption"@ {
        if has_word(w, "DebugLogLevel"@) && has_word(w, "Info"@) {
            UciRequest::LogToFile
        } else {
            UciRequest::OtherOption
        }
    } else if w[0] == "quit"@ {
        UciRequest::Quit
    } else {
        UciRequest::Unrecognized
    }
}

/// Whether `x` is one of the words.
fn contains_word(commands: &[&str], x: &str) -> (r: bool)
    ensures
        r == has_word(words(commands@), x@),
{
    let ghost w = words(commands@);
    let mut i: usize = 0;
    while i < commands.len()
        invariant
            i <= commands.len(),
            w == words(commands@),
            forall|j: int| 0 <= j < i ==> w[j] != x@,
        decreases commands.len() - i,
    {
        if same_word(commands[i], x) {
            assert(w[i as int] == x@);
            return true;
        }
        i = i + 1;
    }
    false
}

/// The request made by a line of the protocol split into words.
pub fn uci_request(commands: &[&str]) -> (r: UciRequest)
    ensures
        r == request_of(words(commands@)),
{
    let ghost w = words(commands@);
    if commands.len() == 0 {
        return UciRequest::Unrecognized;
    }
    let first = commands[0];
    assert(w[0] == first@);
    if same_word(first, "isready") {
        UciRequest::Ready
    } else if same_word(first, "ucinewgame") {
        UciRequest::NewGame
    } else if same_word(first, "position") {
        UciRequest::Position
    } else if same_word(first, "go") {
        UciRequest::Go
    } else if same_word(first, "setoption") {
        if contains_word(commands, "DebugLogLevel") && contains_word(commands, "Info") {
            UciRequest::LogToFile
        } else {
            UciRequest::OtherOption
        }
    } else if same_word(first, "quit") {
        UciRequest::Quit
    } else {
        UciRequest::Unrecognized
    }
}

/// The value of a time field: a signed decimal that fits an `i128`.
pub open spec fn time_value(v: Seq<char>) -> Option<i128> {
    match signed_literal(v) {
        Some(x) => if i128::MIN <= x <= i128::MAX {
            Some(x as i128)
        } else {
            None
        },
        None => None,
    }
}

/// The value of `movestogo`: an unsigned decimal that fits a `u32`.
pub open spec fn moves_value(v: Seq<char>) -> Option<u32> {
    match unsigned_literal(v) {
        Some(x) => if x <= u32::MAX {
            Some(x as u32)
        } else {
            None
        },
        None => None,
    }
}

/// The clocks that a `go` command sets, read from word `i` on with `gt` read so far: a field
/// name followed by a value sets that field and both words are consumed; any other word is
/// skipped. `None` when a value does not parse.
pub open spec fn go_scan(cmds: Seq<Seq<char>>, i: int, gt: GameTime) -> Option<GameTime>
    decreases cmds.len() - i,
{
    if i < 0 || i + 1 >= cmds.len() {
        Some(gt)
    } else {
        let w = cmds[i];
        let v = cmds[i + 1];
        if w == "wtime"@ {
            match time_value(v) {
                Some(x) => go_scan(cmds, i + 2, GameTime { wtime: x, ..gt }),
                None => None,
            }
        } else if w == "btime"@ {
            match time_value(v) {
                Some(x) => go_scan(cmds, i + 2, GameTime { btime: x, ..gt }),
                None => None,
            }
        } else if w == "binc"@ {
            match time_value(v) {
                Some(x) => go_scan(cmds, i + 2, GameTime { binc: x, ..gt }),
                None => None,
            }
        } else if w == "winc"@ {
            match time_value(v) {
                Some(x) => go_scan(cmds, i + 2, GameTime { winc: x, ..gt }),
                None => None,
            }
        } else if w == "movestogo"@ {
            match moves_value(v) {
                Some(x) => go_scan(cmds, i + 2, GameTime { movestogo: Some(x), ..gt }),
                None => None,
            }
        } else {
            go_scan(cmds, i + 1, gt)
        }
    }
}

/// No time on either clock and no moves to go.
pub open spec fn no_time() -> GameTime {
    GameTime { wtime: 0, btime: 0, winc: 0, binc: 0, movestogo: None }
}

/// Reads the clocks of a `go` command, or `None` when a value does not parse.
pub fn try_parse_go_command(commands: &[&str]) -> (r: Option<GameTime>)
    ensures
        r == go_scan(words(commands@), 0, no_time()),
{
    let ghost cmds = words(commands@);
    let mut gt = GameTime { wtime: 0, btime: 0, winc: 0, binc: 0, movestogo: None };
    let mut i: usize = 0;
    while i < commands.len() && i + 1 < commands.len()
        invariant
            cmds == words(commands@),
            i <= commands.len(),
            go_scan(cmds, i as int, gt) == go_scan(cmds, 0, no_time()),
        decreases commands.len() - i,
    {
        assert(cmds[i as int] == commands@[i as int]@);
        assert(cmds[i + 1] == commands@[i + 1]@);
        let word = commands[i];
        let value = chars_of(commands[i + 1]);
        let ghost g0 = gt;
        if same_word(word, "wtime") || same_word(word, "btime") || same_word(word, "binc")
            || same_word(word, "winc") {
            let parsed = match parse_i128(&value) {
                Some(v) => v,
                None => {
                    return None;
                },
            };
            if same_word(word, "wtime") {
                gt.wtime = parsed;
            } else if same_word(word, "btime") {
                gt.btime = parsed;
            } else if same_word(word, "binc") {
                gt.binc = parsed;
            } else {
                gt.winc = parsed;
            }
            assert(go_scan(cmds, i as int, g0) == go_scan(cmds, i + 2, gt));
            i = i + 1;
        } else if same_word(word, "movestogo") {
            let m = match parse_unsigned(&value, 4294967295u128) {
                Some(v) => v,
                None => {
                    return None;
                },
            };
            proof {
                lemma_unsigned_literal_nonneg(value@);
            }
            gt.movestogo = Some(m as u32);
            assert(moves_value(value@) == Some(m as u32));
            assert(go_scan(cmds, i as int, g0) == go_scan(cmds, i + 2, gt));
            i = i + 1;
        } else {
            assert(go_scan(cmds, i as int, g0) == go_scan(cmds, i + 1, gt));
        }
        i = i + 1;
    }
    Some(gt)
}

// parse the go command and get relevant info about the current game time
pub fn parse_go_command(commands: &[&str]) -> (r: GameTime)
    requires
        go_scan(words(commands@), 0, no_time()) is Some,
    ensures
        go_scan(words(commands@), 0, no_time()) == Some(r),
{
    try_parse_go_command(commands).unwrap()
}

pub const WHITE_KING_SIDE_CASTLE_STRING: &'static str = "e1g1";
pub const WHITE_QUEEN_SIDE_CASTLE_STRING: &'static str = "e1c1";
pub const BLACK_KING_SIDE_CASTLE_STRING: &'static str = "e8g8";
pub const BLACK_QUEEN_SIDE_CASTLE_STRING: &'static str = "e8c8";

/// The square a move in long algebraic notation starts from (its first two characters).
pub open spec fn move_start(mv: Seq<char>) -> Point {
    point_parse(mv.subrange(0, 2))->Value_0
}

/// The square a move in long algebraic notation ends on (its third and fourth characters).
pub open spec fn move_end(mv: Seq<char>) -> Point {
    point_parse(mv.subrange(2, 4))->Value_0
}

/// Whether `a` directly followed by `b` occurs in `s`.
pub open spec fn has_pair(s: Seq<char>, a: char, b: char) -> bool {
    exists|i: int| 0 <= i < s.len() - 1 && s[i] == a && #[trigger] s[i + 1] == b
}

fn contains_pair(s: &Vec<char>, a: char, b: char) -> (r: bool)
    ensures
        r == has_pair(s@, a, b),
{
    let mut i: usize = 0;
    while i < s.len() && i + 1 < s.len()
        invariant
            forall|j: int| 0 <= j < i && j < s.len() - 1 ==> !(s@[j] == a && #[trigger] s@[j + 1] == b),
        decreases s.len() - i,
    {
        if s[i] == a && s[i + 1] == b {
            assert(s@[i + 1] == b);
            return true;
        }
        i = i + 1;
    }
    false
}

/// The position with the en passant target cleared.
pub open spec fn cleared_en_passant(b: BoardState, h: ZobristHasher) -> BoardState {
    BoardState {
        pawn_double_move: None,
        zobrist_key: b.zobrist_key ^ en_passant_part(h, b.pawn_double_move),
        ..b
    }
}

/// The square behind a pawn of `color` that moved two squares from `start`.
pub open spec fn passed_square(color: PieceColor, start: Point) -> Point {
    if color == PieceColor::White {
        Point((start.0 - 1) as usize, start.1)
    } else {
        Point((start.0 + 1) as usize, start.1)
    }
}

/// What the moving piece itself changes before it moves: a king records its new square and
/// gives up its side's castling rights; a pawn moving two squares sets the en passant
/// target, and a pawn moving diagonally onto an empty square captures the pawn beside it.
pub open spec fn piece_step(s: BoardState, piece: Piece, start: Point, end: Point, h: ZobristHasher) -> BoardState {
    if piece.kind == PieceKind::King {
        if piece.color == PieceColor::White {
            without_right(
                without_right(BoardState { white_king_location: end, ..s }, CastlingType::WhiteQueenSide, h),
                CastlingType::WhiteKingSide,
                h,
            )
        } else {
            without_right(
                without_right(BoardState { black_king_location: end, ..s }, CastlingType::BlackQueenSide, h),
                CastlingType::BlackKingSide,
                h,
            )
        }
    } else if piece.kind == PieceKind::Pawn {
        let s1 = if start.0 == end.0 + 2 || end.0 == start.0 + 2 {
            let target = passed_square(piece.color, start);
            BoardState {
                zobrist_key: s.zobrist_key ^ h.en_passant_key(target.1 as int),
                pawn_double_move: Some(target),
                ..s
            }
        } else {
            s
        };
        if start.1 != end.1 && s1.board[end.0 as int][end.1 as int] == Square::Empty {
            BoardState {
                board: with_square(s1.board, start.0 as int, end.1 as int, Square::Empty),
                zobrist_key: s1.zobrist_key ^ h.piece_key(
                    Piece { color: s1.to_move.spec_opposite(), kind: PieceKind::Pawn },
                    start.0 as int,
                    end.1 as int,
                ),
                ..s1
            }
        } else {
            s1
        }
    } else {
        s
    }
}

/// A move that starts or ends on a rook's corner gives up that corner's castling right.
pub open spec fn corner_rights_step(s: BoardState, mv: Seq<char>, h: ZobristHasher) -> BoardState {
    let s1 = if has_pair(mv, 'a', '8') { without_right(s, CastlingType::BlackQueenSide, h) } else { s };
    let s2 = if has_pair(mv, 'h', '8') { without_right(s1, CastlingType::BlackKingSide, h) } else { s1 };
    let s3 = if has_pair(mv, 'a', '1') { without_right(s2, CastlingType::WhiteQueenSide, h) } else { s2 };
    if has_pair(mv, 'h', '1') { without_right(s3, CastlingType::WhiteKingSide, h) } else { s3 }
}

/// The piece a promotion letter asks for; an unknown letter gives a queen.
pub open spec fn promotion_kind(c: char) -> PieceKind {
    if c == 'n' {
        PieceKind::Knight
    } else if c == 'b' {
        PieceKind::Bishop
    } else if c == 'r' {
        PieceKind::Rook
    } else {
        PieceKind::Queen
    }
}

/// A five-byte move promotes: the piece on its end square becomes the piece its last letter
/// names, in the color of the side to move.
pub open spec fn promotion_step(s: BoardState, mv: Seq<char>, end: Point, h: ZobristHasher) -> BoardState {
    if utf8_len(mv) == 5 {
        let promo = Piece { color: s.to_move, kind: promotion_kind(mv[4]) };
        BoardState {
            zobrist_key: s.zobrist_key ^ (h.piece_key(
                Piece { color: s.to_move, kind: PieceKind::Pawn },
                end.0 as int,
                end.1 as int,
            ) ^ h.piece_key(promo, end.0 as int, end.1 as int)),
            board: with_square(s.board, end.0 as int, end.1 as int, Square::Full(promo)),
            ..s
        }
    } else {
        s
    }
}

/// A castling move written as the king's move brings the rook along, when that king stands
/// on the end square.
pub open spec fn castle_step(s: BoardState, mv: Seq<char>, end: Point, h: ZobristHasher) -> BoardState {
    let at_end = s.board[end.0 as int][end.1 as int];
    let white_king = Square::Full(Piece { color: PieceColor::White, kind: PieceKind::King });
    let black_king = Square::Full(Piece { color: PieceColor::Black, kind: PieceKind::King });
    if mv == WHITE_KING_SIDE_CASTLE_STRING@ && at_end == white_king {
        moved(s, Point(9, 9), Point(9, 7), h)
    } else if mv == WHITE_QUEEN_SIDE_CASTLE_STRING@ && at_end == white_king {
        moved(s, Point(9, 2), Point(9, 5), h)
    } else if mv == BLACK_KING_SIDE_CASTLE_STRING@ && at_end == black_king {
        moved(s, Point(2, 9), Point(2, 7), h)
    } else if mv == BLACK_QUEEN_SIDE_CASTLE_STRING@ && at_end == black_king {
        moved(s, Point(2, 2), Point(2, 5), h)
    } else {
        s
    }
}

/// The position with the other side to move.
pub open spec fn flipped(s: BoardState, h: ZobristHasher) -> BoardState {
    BoardState { to_move: s.to_move.spec_opposite(), zobrist_key: s.zobrist_key ^ h.black_key(), ..s }
}

/// Whether a move in long algebraic notation can be played on `b`: it names two squares of
/// the board, the first holding a piece, and the en passant target (if any) is on the board.
pub open spec fn uci_move_ok(b: BoardState, mv: Seq<char>) -> bool {
    &&& mv.len() >= 4
    &&& point_parse(mv.subrange(0, 2)) is Value
    &&& point_parse(mv.subrange(2, 4)) is Value
    &&& b.board[move_start(mv).0 as int][move_start(mv).1 as int] is Full
    &&& b.pawn_double_move matches Some(p) ==> p.1 < 12
}

/// The position after the opponent's move `mv` is played on `b`.
pub open spec fn uci_move(b: BoardState, mv: Seq<char>, h: ZobristHasher) -> BoardState {
    let (start, end) = (move_start(mv), move_end(mv));
    let s1 = cleared_en_passant(b, h);
    let piece = s1.board[start.0 as int][start.1 as int]->Full_0;
    let s2 = piece_step(s1, piece, start, end, h);
    let s3 = corner_rights_step(s2, mv, h);
    let s4 = moved(s3, start, end, h);
    let s5 = promotion_step(s4, mv, end, h);
    let s6 = castle_step(s5, mv, end, h);
    flipped(s6, h)
}

/// The moves whose key updates match the board: a pawn capturing en passant finds an opposing
/// pawn beside it, and only a pawn of the side to move is promoted.
pub open spec fn uci_move_keeps_key(b: BoardState, mv: Seq<char>) -> bool {
    let (start, end) = (move_start(mv), move_end(mv));
    let piece = b.board[start.0 as int][start.1 as int]->Full_0;
    &&& (piece.kind == PieceKind::Pawn && start.1 != end.1 && b.board[end.0 as int][end.1 as int]
        == Square::Empty) ==> b.board[start.0 as int][end.1 as int] == Square::Full(
        Piece { color: b.to_move.spec_opposite(), kind: PieceKind::Pawn },
    )
    &&& utf8_len(mv) == 5 ==> piece == Piece { color: b.to_move, kind: PieceKind::Pawn }
}

proof fn lemma_key_xor_piece(k: u64, bk: u64, s: u64, c: u64, e: u64, p: u64)
    requires
        k == ((bk ^ s) ^ c) ^ e,
    ensures
        k ^ p == (((bk ^ p) ^ s) ^ c) ^ e,
{
    assert(k == ((bk ^ s) ^ c) ^ e ==> k ^ p == (((bk ^ p) ^ s) ^ c) ^ e) by (bit_vector);
}

proof fn lemma_key_replace_piece(k: u64, bk: u64, s: u64, c: u64, e: u64, p: u64, q: u64)
    requires
        k == ((bk ^ s) ^ c) ^ e,
    ensures
        k ^ (p ^ q) == ((((bk ^ p) ^ q) ^ s) ^ c) ^ e,
{
    assert(k == ((bk ^ s) ^ c) ^ e ==> k ^ (p ^ q) == ((((bk ^ p) ^ q) ^ s) ^ c) ^ e) by (bit_vector);
}

/// A move starts with two squares of two ASCII characters each, so a move of five bytes has
/// a fifth character.
proof fn lemma_move_has_fifth(mv: Seq<char>)
    requires
        mv.len() >= 4,
        point_parse(mv.subrange(0, 2)) is Value,
        point_parse(mv.subrange(2, 4)) is Value,
        utf8_len(mv) == 5,
    ensures
        mv.len() >= 5,
{
    if mv.len() == 4 {
        reveal_with_fuel(utf8_len, 5);
        assert(mv.subrange(0, 2)[0] == mv[0] && mv.subrange(0, 2)[1] == mv[1]);
        assert(mv.subrange(2, 4)[0] == mv[2] && mv.subrange(2, 4)[1] == mv[3]);
        assert(mv.drop_last().drop_last().drop_last().drop_last() =~= Seq::<char>::empty());
        assert(utf8_len(mv) == 4);
    }
}

/// The two squares a move names.
fn move_squares(chars: &Vec<char>) -> (r: (Point, Point))
    requires
        chars@.len() >= 4,
        point_parse(chars@.subrange(0, 2)) is Value,
        point_parse(chars@.subrange(2, 4)) is Value,
    ensures
        r.0 == move_start(chars@),
        r.1 == move_end(chars@),
{
    let mut first: Vec<char> = Vec::new();
    first.push(chars[0]);
    first.push(chars[1]);
    let mut second: Vec<char> = Vec::new();
    second.push(chars[2]);
    second.push(chars[3]);
    assert(first@ =~= chars@.subrange(0, 2));
    assert(second@ =~= chars@.subrange(2, 4));
    let start_pair = parse_point_chars(&first).unwrap();
    let end_pair = parse_point_chars(&second).unwrap();
    (start_pair, end_pair)
}

/// Plays what the moving piece itself changes (see `piece_step`).
fn apply_piece_step(
    board: &mut BoardState,
    piece: Piece,
    start_pair: Point,
    end_pair: Point,
    zobrist_hasher: &ZobristHasher,
)
    requires
        crate::board::on_board(start_pair),
        crate::board::on_board(end_pair),
        old(board).pawn_double_move is None,
    ensures
        *final(board) == piece_step(*old(board), piece, start_pair, end_pair, *zobrist_hasher),
        key_is_current(*zobrist_hasher, *old(board)) && ((piece.kind == PieceKind::Pawn
            && start_pair.1 != end_pair.1 && old(board).board[end_pair.0 as int][end_pair.1 as int]
            == Square::Empty) ==> old(board).board[start_pair.0 as int][end_pair.1 as int]
            == Square::Full(Piece { color: old(board).to_move.spec_opposite(), kind: PieceKind::Pawn }))
            ==> key_is_current(*zobrist_hasher, *final(board)),
{
    let ghost h = *zobrist_hasher;
    let ghost b0 = *board;
    if piece.kind == PieceKind::King {
        // update king location
        if piece.color == PieceColor::White {
            board.white_king_location = end_pair;
            board.take_away_castling_rights(CastlingType::WhiteQueenSide, zobrist_hasher);
            board.take_away_castling_rights(CastlingType::WhiteKingSide, zobrist_hasher);
        } else {
            board.black_king_location = end_pair;
            board.take_away_castling_rights(CastlingType::BlackQueenSide, zobrist_hasher);
            board.take_away_castling_rights(CastlingType::BlackKingSide, zobrist_hasher);
        }
    } else if piece.kind == PieceKind::Pawn {
        if start_pair.0 == end_pair.0 + 2 || end_pair.0 == start_pair.0 + 2 {
            // pawn made a double move, record space behind pawn for en passant
            let target = match piece.color {
                PieceColor::White => Point(start_pair.0 - 1, start_pair.1),
                PieceColor::Black => Point(start_pair.0 + 1, start_pair.1),
            };
            let ghost before = *board;
            board.zobrist_key = board.zobrist_key ^ zobrist_hasher.get_val_for_en_passant(target.1);
            board.pawn_double_move = Some(target);
            proof {
                lemma_xor_zero(
                    (board_key(h, before.board) ^ side_key(h, before.to_move)) ^ castling_key(h, before),
                );
            }
        }
        let ghost mid = *board;
        assert(key_is_current(h, b0) ==> key_is_current(h, mid));
        // check for en passant captures
        // if a pawn moves diagonally and no capture is made, it must be an en passant capture
        if start_pair.1 != end_pair.1 && board.board[end_pair.0][end_pair.1].is_empty() {
            board.board[start_pair.0][end_pair.1] = Square::Empty;
            board.zobrist_key = board.zobrist_key ^ zobrist_hasher.get_val_for_piece(
                Piece::pawn(board.to_move.opposite()),
                Point(start_pair.0, end_pair.1),
            );
            proof {
                assert(board.board =~= with_square(mid.board, start_pair.0 as int, end_pair.1 as int, Square::Empty));
                lemma_board_key_update(h, mid.board, board.board, start_pair.0 as int, end_pair.1 as int, Square::Empty);
                lemma_xor_zero(board_key(h, mid.board) ^ square_key(h, mid.board[start_pair.0 as int][end_pair.1 as int], start_pair.0 as int, end_pair.1 as int));
                if key_is_current(h, mid) {
                    lemma_key_xor_piece(
                        mid.zobrist_key,
                        board_key(h, mid.board),
                        side_key(h, mid.to_move),
                        castling_key(h, mid),
                        en_passant_part(h, mid.pawn_double_move),
                        h.piece_key(Piece { color: mid.to_move.spec_opposite(), kind: PieceKind::Pawn }, start_pair.0 as int, end_pair.1 as int),
                    );
                }
            }
        }
    }
}

/// Gives up the castling right of each rook corner that the move text names.
fn apply_corner_rights(board: &mut BoardState, chars: &Vec<char>, zobrist_hasher: &ZobristHasher)
    ensures
        *final(board) == corner_rights_step(*old(board), chars@, *zobrist_hasher),
        key_is_current(*zobrist_hasher, *old(board)) ==> key_is_current(*zobrist_hasher, *final(board)),
{
    if contains_pair(chars, 'a', '8') {
        board.take_away_castling_rights(CastlingType::BlackQueenSide, zobrist_hasher);
    }
    if contains_pair(chars, 'h', '8') {
        board.take_away_castling_rights(CastlingType::BlackKingSide, zobrist_hasher);
    }
    if contains_pair(chars, 'a', '1') {
        board.take_away_castling_rights(CastlingType::WhiteQueenSide, zobrist_hasher);
    }
    if contains_pair(chars, 'h', '1') {
        board.take_away_castling_rights(CastlingType::WhiteKingSide, zobrist_hasher);
    }
}

/// Plays a promotion (see `promotion_step`).
fn apply_promotion(board: &mut BoardState, chars: &Vec<char>, end_pair: Point, zobrist_hasher: &ZobristHasher)
    requires
        chars@.len() >= 4,
        point_parse(chars@.subrange(0, 2)) is Value,
        point_parse(chars@.subrange(2, 4)) is Value,
        crate::board::on_board(end_pair),
    ensures
        *final(board) == promotion_step(*old(board), chars@, end_pair, *zobrist_hasher),
        key_is_current(*zobrist_hasher, *old(board)) && (utf8_len(chars@) == 5 ==> old(board).board[end_pair.0 as int][end_pair.1 as int]
            == Square::Full(Piece { color: old(board).to_move, kind: PieceKind::Pawn }))
            ==> key_is_current(*zobrist_hasher, *final(board)),
{
    let ghost h = *zobrist_hasher;
    //deal with any pawn promotions
    if has_byte_length(chars, 5) {
        proof {
            lemma_move_has_fifth(chars@);
        }
        let kind = if chars[4] == 'n' {
            PieceKind::Knight
        } else if chars[4] == 'b' {
            PieceKind::Bishop
        } else if chars[4] == 'r' {
            PieceKind::Rook
        } else {
            PieceKind::Queen
        };
        let promotion_piece = Piece { color: board.to_move, kind };
        let ghost before = *board;
        board.zobrist_key = board.zobrist_key ^ (zobrist_hasher.get_val_for_piece(
            Piece::pawn(board.to_move),
            end_pair,
        ) ^ zobrist_hasher.get_val_for_piece(promotion_piece, end_pair));
        board.board[end_pair.0][end_pair.1] = Square::Full(promotion_piece);
        proof {
            assert(board.board =~= with_square(before.board, end_pair.0 as int, end_pair.1 as int, Square::Full(promotion_piece)));
            lemma_board_key_update(h, before.board, board.board, end_pair.0 as int, end_pair.1 as int, Square::Full(promotion_piece));
            if key_is_current(h, before) {
                lemma_key_replace_piece(
                    before.zobrist_key,
                    board_key(h, before.board),
                    side_key(h, before.to_move),
                    castling_key(h, before),
                    en_passant_part(h, before.pawn_double_move),
                    h.piece_key(Piece { color: before.to_move, kind: PieceKind::Pawn }, end_pair.0 as int, end_pair.1 as int),
                    h.piece_key(promotion_piece, end_pair.0 as int, end_pair.1 as int),
                );
            }
        }
    }
}

/// Moves the rook of a castling move (see `castle_step`).
fn apply_castle(board: &mut BoardState, player_move: &str, end_pair: Point, zobrist_hasher: &ZobristHasher)
    requires
        crate::board::on_board(end_pair),
    ensures
        *final(board) == castle_step(*old(board), player_move@, end_pair, *zobrist_hasher),
        key_is_current(*zobrist_hasher, *old(board)) ==> key_is_current(*zobrist_hasher, *final(board)),
{
    // deal with castling, here we also make sure the right king is on the target square to
    // distinguish between castling and normal moves
    let at_end = board.board[end_pair.0][end_pair.1];
    if same_word(player_move, WHITE_KING_SIDE_CASTLE_STRING) && at_end.holds(Piece::king(PieceColor::White)) {
        board.move_piece(Point(BOARD_END - 1, BOARD_END - 1), Point(BOARD_END - 1, BOARD_END - 3), zobrist_hasher);
    } else if same_word(player_move, WHITE_QUEEN_SIDE_CASTLE_STRING) && at_end.holds(Piece::king(PieceColor::White)) {
        board.move_piece(Point(BOARD_END - 1, BOARD_START), Point(BOARD_END - 1, BOARD_START + 3), zobrist_hasher);
    } else if same_word(player_move, BLACK_KING_SIDE_CASTLE_STRING) && at_end.holds(Piece::king(PieceColor::Black)) {
        board.move_piece(Point(BOARD_START, BOARD_END - 1), Point(BOARD_START, BOARD_END - 3), zobrist_hasher);
    } else if same_word(player_move, BLACK_QUEEN_SIDE_CASTLE_STRING) && at_end.holds(Piece::king(PieceColor::Black)) {
        board.move_piece(Point(BOARD_START, BOARD_START), Point(BOARD_START, BOARD_START + 3), zobrist_hasher);
    }
}

/*
    Play the opponents move on the board
*/
pub fn make_move(board: &mut BoardState, player_move: &str, zobrist_hasher: &ZobristHasher)
    requires
        uci_move_ok(*old(board), player_move@),
    ensures
        *final(board) == uci_move(*old(board), player_move@, *zobrist_hasher),
        key_is_current(*zobrist_hasher, *old(board)) && uci_move_keeps_key(*old(board), player_move@)
            ==> key_is_current(*zobrist_hasher, *final(board)),
{
    let ghost h = *zobrist_hasher;
    let ghost b0 = *board;
    let chars = chars_of(player_move);
    let (start_pair, end_pair) = move_squares(&chars);
    board.unset_pawn_double_move(zobrist_hasher);
    let square = board.board[start_pair.0][start_pair.1];
    let piece = match square {
        Square::Full(p) => p,
        _ => {
            proof {
                assert(false);
            }
            return;
        },
    };
    apply_piece_step(board, piece, start_pair, end_pair, zobrist_hasher);
    //deal with castling privileges related to the movement/capture of rooks
    apply_corner_rights(board, &chars, zobrist_hasher);
    //move piece
    board.move_piece(start_pair, end_pair, zobrist_hasher);
    apply_promotion(board, &chars, end_pair, zobrist_hasher);
    apply_castle(board, player_move, end_pair, zobrist_hasher);
    board.swap_color(zobrist_hasher);
}

/// The FEN string of a `position fen ...` command: its six words after `fen`, joined by spaces.
pub open spec fn fen_text(w: Seq<Seq<char>>) -> Seq<char> {
    w[2] + seq![' '] + w[3] + seq![' '] + w[4] + seq![' '] + w[5] + seq![' '] + w[6] + seq![' '] + w[7]
}

/// The FEN string a `position` command starts from: the one it gives after `fen`, or the
/// starting position.
pub open spec fn start_fen(w: Seq<Seq<char>>) -> Seq<char> {
    if w[1] == "fen"@ {
        fen_text(w)
    } else {
        DEFAULT_FEN_STRING@
    }
}

/// The index of the first word `moves` at or after `i`.
pub open spec fn moves_index(w: Seq<Seq<char>>, i: int) -> Option<int>
    decreases w.len() - i,
{
    if i < 0 || i >= w.len() {
        None
    } else if w[i] == "moves"@ {
        Some(i)
    } else {
        moves_index(w, i + 1)
    }
}

/// The moves a `position` command lists after the word `moves`.
pub open spec fn listed_moves(w: Seq<Seq<char>>) -> Seq<Seq<char>> {
    match moves_index(w, 0) {
        Some(i) => w.skip(i + 1),
        None => Seq::empty(),
    }
}

/// A position read from a FEN string: as the string describes it, keyed with the seeded keys.
pub open spec fn is_start(fen: Seq<char>, b: BoardState) -> bool {
    &&& is_fen_position(fen, b)
    &&& forall|h: ZobristHasher| h.is_seeded() ==> key_is_current(h, b)
}

/// Plays `moves` one after the other from `b`, counting each position reached in `table`:
/// the final position and counts, or `None` when a move cannot be played or a count would
/// pass 255.
pub open spec fn replay(b: BoardState, moves: Seq<Seq<char>>, h: ZobristHasher, table: Map<u64, u8>) -> Option<(BoardState, Map<u64, u8>)>
    decreases moves.len(),
{
    if moves.len() == 0 {
        Some((b, table))
    } else if !uci_move_ok(b, moves[0]) {
        None
    } else {
        let nb = uci_move(b, moves[0], h);
        if seen(table, nb.zobrist_key) >= 255 {
            None
        } else {
            replay(nb, moves.skip(1), h, with_sighting(table, nb.zobrist_key))
        }
    }
}

/// Whether a `position` command has what it needs to set up its starting position: a second
/// word, and after `fen` six more words that make an accepted FEN string.
pub open spec fn position_ready(w: Seq<Seq<char>>) -> bool {
    &&& w.len() >= 2
    &&& w[1] == "fen"@ ==> w.len() >= 8 && fen_check(fen_text(w)) is Value
}

/// Whether the opponent's move `mv` can be played on `board` (see `uci_move_ok`).
pub fn move_playable(board: &BoardState, mv: &Vec<char>) -> (r: bool)
    ensures
        r == uci_move_ok(*board, mv@),
{
    if mv.len() < 4 {
        return false;
    }
    let mut first: Vec<char> = Vec::new();
    first.push(mv[0]);
    first.push(mv[1]);
    let mut second: Vec<char> = Vec::new();
    second.push(mv[2]);
    second.push(mv[3]);
    assert(first@ =~= mv@.subrange(0, 2));
    assert(second@ =~= mv@.subrange(2, 4));
    let start = match crate::fen::point_parse_status(&first) {
        Parsed::Value(p) => p,
        _ => {
            return false;
        },
    };
    match crate::fen::point_parse_status(&second) {
        Parsed::Value(_) => {},
        _ => {
            return false;
        },
    }
    let holds_piece = match board.board[start.0][start.1] {
        Square::Full(_) => true,
        _ => false,
    };
    let target_in_array = match board.pawn_double_move {
        Some(p) => p.1 < 12,
        None => true,
    };
    holds_piece && target_in_array
}

/// A replay stops at the first move that cannot be played.
proof fn lemma_replay_stops(b: BoardState, moves: Seq<Seq<char>>, h: ZobristHasher, t: Map<u64, u8>)
    requires
        moves.len() > 0,
        !uci_move_ok(b, moves[0]),
    ensures
        replay(b, moves, h, t) is None,
{
}

/*
    From the provided fen string set up the board state
*/
pub fn play_out_position(commands: &[&str], zobrist_hasher: &ZobristHasher, draw_table: &mut DrawTable) -> (r: Result<BoardState, &'static str>)
    ensures
        match r {
            Ok(fb) => position_ready(words(commands@)) && exists|b0: BoardState|
                is_start(start_fen(words(commands@)), b0) && #[trigger] replay(
                    b0,
                    listed_moves(words(commands@)),
                    *zobrist_hasher,
                    old(draw_table).table@.insert(b0.zobrist_key, 1),
                ) == Some((fb, final(draw_table).table@)),
            Err(_) => !position_ready(words(commands@)) || exists|b0: BoardState|
                is_start(start_fen(words(commands@)), b0) && #[trigger] replay(
                    b0,
                    listed_moves(words(commands@)),
                    *zobrist_hasher,
                    old(draw_table).table@.insert(b0.zobrist_key, 1),
                ) is None,
        },
{
    let ghost w = words(commands@);
    let ghost h = *zobrist_hasher;
    if commands.len() < 2 {
        return Err("Position command is incomplete");
    }
    let mut board;
    assert(w[1] == commands@[1]@);
    if same_word(commands[1], "fen") {
        if commands.len() < 8 {
            return Err("Got bad fen string, cant continue");
        }
        let mut fen: Vec<char> = Vec::new();
        let mut k: usize = 2;
        while k < 7
            invariant
                2 <= k <= 7,
                commands@.len() >= 8,
                w == words(commands@),
                fen@ == if k == 2 { Seq::<char>::empty() } else if k == 3 { w[2] + seq![' '] } else if k == 4 {
                    w[2] + seq![' '] + w[3] + seq![' ']
                } else if k == 5 {
                    w[2] + seq![' '] + w[3] + seq![' '] + w[4] + seq![' ']
                } else if k == 6 {
                    w[2] + seq![' '] + w[3] + seq![' '] + w[4] + seq![' '] + w[5] + seq![' ']
                } else {
                    w[2] + seq![' '] + w[3] + seq![' '] + w[4] + seq![' '] + w[5] + seq![' '] + w[6] + seq![' ']
                },
            decreases 7 - k,
        {
            let word = chars_of(commands[k]);
            assert(word@ == w[k as int]);
            let ghost before = fen@;
            append(&mut fen, &word);
            fen.push(' ');
            assert(fen@ =~= before + w[k as int] + seq![' ']);
            k = k + 1;
        }
        let last = chars_of(commands[7]);
        append(&mut fen, &last);
        assert(fen@ =~= fen_text(w));
        let text = string_of(&fen);
        match BoardState::parse_fen(text.as_str()) {
            Parsed::Value(b) => {
                board = b;
            },
            Parsed::Refused(e) => {
                return Err(e.message());
            },
            Parsed::Unreadable => {
                return Err("Got bad fen string, cant continue");
            },
        }
    } else {
        proof {
            lemma_default_fen_accepted();
        }
        match BoardState::parse_fen(DEFAULT_FEN_STRING) {
            Parsed::Value(b) => {
                board = b;
            },
            _ => {
                proof {
                    assert(false);
                }
                return Err("Got bad fen string, cant continue");
            },
        }
    }
    let ghost b0 = board;
    assert(is_start(start_fen(w), b0));
    assert(position_ready(w));
    let mut moves_start_index: Option<usize> = None;
    let mut i: usize = 0;
    while i < commands.len()
        invariant_except_break
            moves_index(w, 0) == moves_index(w, i as int),
            moves_start_index is None,
        invariant
            i <= commands@.len(),
            w == words(commands@),
        ensures
            match moves_start_index {
                Some(k) => k < commands@.len() && moves_index(w, 0) == Some(k as int),
                None => moves_index(w, 0) is None,
            },
        decreases commands.len() - i,
    {
        assert(w[i as int] == commands@[i as int]@);
        if same_word(commands[i], "moves") {
            moves_start_index = Some(i);
            break;
        }
        i = i + 1;
    }
    let ghost moves = listed_moves(w);
    let ghost t0 = draw_table.table@.insert(board.zobrist_key, 1);
    draw_table.table.insert(board.zobrist_key, 1);
    match moves_start_index {
        Some(start_index) => {
            let mut j: usize = start_index + 1;
            assert(moves.skip(0) =~= moves);
            while j < commands.len()
                invariant
                    start_index < commands@.len(),
                    start_index + 1 <= j <= commands@.len(),
                    w == words(commands@),
                    moves == w.skip(start_index + 1),
                    h == *zobrist_hasher,
                    is_start(start_fen(w), b0),
                    t0 == old(draw_table).table@.insert(b0.zobrist_key, 1),
                    moves == listed_moves(w),
                    replay(b0, moves, h, t0) == replay(board, moves.skip(j - start_index - 1), h, draw_table.table@),
                decreases commands.len() - j,
            {
                let ghost rest = moves.skip(j - start_index - 1);
                assert(rest[0] == commands@[j as int]@);
                let mv = chars_of(commands[j]);
                if !move_playable(&board, &mv) {
                    assert(rest.len() > 0);
                    assert(!uci_move_ok(board, rest[0]));
                    proof {
                        lemma_replay_stops(board, rest, h, draw_table.table@);
                    }
                    assert(replay(b0, listed_moves(w), h, old(draw_table).table@.insert(b0.zobrist_key, 1)) is None);
                    return Err("UCI Error: Trying to play a move that is not possible");
                }
                make_move(&mut board, commands[j], zobrist_hasher);
                let seen_count: u8 = match draw_table.table.get(&board.zobrist_key) {
                    Some(v) => *v,
                    None => 0,
                };
                if seen_count == 255 {
                    assert(replay(b0, listed_moves(w), h, old(draw_table).table@.insert(b0.zobrist_key, 1)) is None);
                    return Err("UCI Error: Position was repeated too often");
                }
                draw_table.add_board_to_draw_table(&board);
                assert(rest.skip(1) =~= moves.skip(j + 1 - start_index - 1));
                j = j + 1;
            }
            assert(moves.skip(j - start_index - 1) =~= Seq::<Seq<char>>::empty());
        },
        None => {
            assert(moves =~= Seq::<Seq<char>>::empty());
        },
    }
    Ok(board)
}

/// The `bestmove` line for the move that led to `board`: its squares in long algebraic
/// notation, then the letter of the piece a pawn was promoted to.
pub open spec fn best_move_text(board: BoardState) -> Seq<char> {
    let (from, to) = board.last_move->Some_0;
    let base = "bestmove "@ + algebraic(from) + algebraic(to);
    match board.pawn_promotion {
        Some(p) => base.push(p.kind.spec_alg()),
        None => base,
    }
}

/// The message that reports the move that led to `board` to the GUI.
pub fn best_move_message(board: &BoardState) -> (r: String)
    requires
        board.last_move is Some,
    ensures
        r@ == best_move_text(*board),
{
    let best_move = board.last_move.unwrap();
    let mut text = chars_of("bestmove ");
    append(&mut text, &chars_of(best_move.0.to_algebraic().as_str()));
    append(&mut text, &chars_of(best_move.1.to_algebraic().as_str()));
    match board.pawn_promotion {
        Some(pawn_promotion) => {
            let letter = chars_of(pawn_promotion.kind.alg());
            text.push(letter[0]);
        },
        None => {},
    }
    string_of(&text)
}

/// Whether the move `mv` starts or ends on the square with file letter `f` and rank digit `r`.
pub open spec fn names_square(mv: Seq<char>, f: char, r: char) -> bool {
    (mv[0] == f && mv[1] == r) || (mv[2] == f && mv[3] == r)
}

/// A move that starts or ends on a corner square takes away the castling right of the rook
/// that belongs there: h1 the white king side, a1 the white queen side, h8 the black king side
/// and a8 the black queen side.
pub proof fn lemma_corner_move_takes_right(b: BoardState, mv: Seq<char>, h: ZobristHasher)
    requires
        uci_move_ok(b, mv),
    ensures
        names_square(mv, 'h', '1') ==> !uci_move(b, mv, h).white_king_side_castle,
        names_square(mv, 'a', '1') ==> !uci_move(b, mv, h).white_queen_side_castle,
        names_square(mv, 'h', '8') ==> !uci_move(b, mv, h).black_king_side_castle,
        names_square(mv, 'a', '8') ==> !uci_move(b, mv, h).black_queen_side_castle,
{
    lemma_pairs_of_move(mv, 'h', '1');
    lemma_pairs_of_move(mv, 'a', '1');
    lemma_pairs_of_move(mv, 'h', '8');
    lemma_pairs_of_move(mv, 'a', '8');
}

/// Any other castling right is kept by a move of at most five characters, unless the king
/// of its side is the piece that moves.
pub proof fn lemma_other_rights_kept(b: BoardState, mv: Seq<char>, h: ZobristHasher)
    requires
        uci_move_ok(b, mv),
        mv.len() <= 5,
    ensures
        ({
            let mover = b.board[move_start(mv).0 as int][move_start(mv).1 as int];
            let white_king = Square::Full(Piece { color: PieceColor::White, kind: PieceKind::King });
            let black_king = Square::Full(Piece { color: PieceColor::Black, kind: PieceKind::King });
            let r = uci_move(b, mv, h);
            &&& !names_square(mv, 'h', '1') && mover != white_king ==> r.white_king_side_castle
                == b.white_king_side_castle
            &&& !names_square(mv, 'a', '1') && mover != white_king ==> r.white_queen_side_castle
                == b.white_queen_side_castle
            &&& !names_square(mv, 'h', '8') && mover != black_king ==> r.black_king_side_castle
                == b.black_king_side_castle
            &&& !names_square(mv, 'a', '8') && mover != black_king ==> r.black_queen_side_castle
                == b.black_queen_side_castle
        }),
{
    lemma_pairs_of_move(mv, 'h', '1');
    lemma_pairs_of_move(mv, 'a', '1');
    lemma_pairs_of_move(mv, 'h', '8');
    lemma_pairs_of_move(mv, 'a', '8');
}

/// In a move of at most five characters whose first four name two squares, a file letter
/// followed by a rank digit can only stand at the start of one of the two squares.
proof fn lemma_pairs_of_move(mv: Seq<char>, f: char, r: char)
    requires
        mv.len() >= 4,
        point_parse(mv.subrange(0, 2)) is Value,
        point_parse(mv.subrange(2, 4)) is Value,
        'a' <= f <= 'h',
    ensures
        names_square(mv, f, r) ==> has_pair(mv, f, r),
        mv.len() <= 5 && has_pair(mv, f, r) ==> names_square(mv, f, r),
{
    assert(mv.subrange(0, 2)[1] == mv[1]);
    assert(mv.subrange(2, 4)[1] == mv[3]);
    assert(is_digit(mv[1]) && is_digit(mv[3]));
    if mv[0] == f && mv[1] == r {
        assert(mv[0int + 1] == r);
    }
    if mv[2] == f && mv[3] == r {
        assert(mv[2int + 1] == r);
    }
}

} // verus!

