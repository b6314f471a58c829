use crate::board::{Piece, PieceColor, PieceKind, Point};
pub use crate::board::CastlingType;
use rand_chacha::rand_core::{RngCore, SeedableRng};
use rand_chacha::ChaCha8Rng;
use vstd::prelude::*;

verus! {

/// Side length of the square table the hasher is indexed by (the padded 12x12 board).
pub const BOARD_SIZE: usize = 12;

/// Six kinds of piece for each of the two colors.
pub const PIECE_TYPES: usize = 12;

/// The seed of the key generator: the same seed always gives the same keys.
pub const ZOBRIST_SEED: u64 = 110220;

pub type ZobristKey = u64;

/// The 64-bit word that a ChaCha8 generator seeded with `seed` yields when it is read at
/// position `word_pos` (counted in 32-bit words) of its key stream.
pub uninterp spec fn chacha_word(seed: u64, word_pos: u128) -> u64;

/// `rand_chacha::ChaCha8Rng::seed_from_u64(seed)`, moved with `set_word_pos` to 32-bit word
/// `word_pos` of its stream, then read once with `RngCore::next_u64`. The generator is
/// deterministic, so the word depends on the two arguments alone; which word that is, is
/// left to the outside crate.
#[verifier::external_body]
fn stream_word(seed: u64, word_pos: u128) -> (r: u64)
    ensures
        r == chacha_word(seed, word_pos),
{
    let mut rng = ChaCha8Rng::seed_from_u64(seed);
    rng.set_word_pos(word_pos);
    rng.next_u64()
}

/// The `n`-th 64-bit key drawn from the generator seeded with the hasher's seed: draws are
/// consecutive, two 32-bit words each.
pub open spec fn key_draw(n: int) -> u64 {
    chacha_word(ZOBRIST_SEED, (2 * n) as u128)
}

/// The draw that fills entry `[k][j][i]` of the piece table: ranks outermost, then files,
/// then the twelve pieces.
pub open spec fn table_draw(k: int, j: int, i: int) -> int {
    i * 144 + j * 12 + k
}

/// Draws that follow the piece table: twelve en passant files, then the side to move and the
/// four castling rights.
pub const EN_PASSANT_DRAW: u64 = 1728;
pub const BLACK_TO_MOVE_DRAW: u64 = 1740;

/// The table of random keys that positions are hashed with.
pub struct ZobristHasher {
    // indexed by [piece][file][rank]
    piece_square_table: [[[ZobristKey; BOARD_SIZE]; BOARD_SIZE]; PIECE_TYPES],
    black_to_move: ZobristKey,
    white_king_side_castle: ZobristKey,
    white_queen_side_castle: ZobristKey,
    black_king_side_castle: ZobristKey,
    black_queen_side_castle: ZobristKey,
    // indexed by file
    en_passant_files: [ZobristKey; BOARD_SIZE],
}

/// Place of a kind in the key table: pawn, knight, bishop, rook, queen, king.
pub open spec fn kind_slot(kind: PieceKind) -> int {
    match kind {
        PieceKind::Pawn => 0,
        PieceKind::Knight => 1,
        PieceKind::Bishop => 2,
        PieceKind::Rook => 3,
        PieceKind::Queen => 4,
        PieceKind::King => 5,
    }
}

/// Row of the key table used for a piece: the kind's place, shifted by six for black.
pub open spec fn table_index(piece: Piece) -> int {
    kind_slot(piece.kind) + if piece.color == PieceColor::White { 0int } else { 6int }
}

fn slot_of(kind: PieceKind) -> (r: usize)
    ensures
        r as int == kind_slot(kind),
{
    match kind {
        PieceKind::Pawn => 0,
        PieceKind::Knight => 1,
        PieceKind::Bishop => 2,
        PieceKind::Rook => 3,
        PieceKind::Queen => 4,
        PieceKind::King => 5,
    }
}

impl ZobristHasher {
    /// The key of `piece` standing on row `row`, column `col`.
    pub closed spec fn piece_key(&self, piece: Piece, row: int, col: int) -> u64 {
        self.piece_square_table@[table_index(piece)]@[col]@[row]
    }

    /// The key of one castling right.
    pub closed spec fn castle_key(&self, castling_type: CastlingType) -> u64 {
        match castling_type {
            CastlingType::WhiteKingSide => self.white_king_side_castle,
            CastlingType::WhiteQueenSide => self.white_queen_side_castle,
            CastlingType::BlackKingSide => self.black_king_side_castle,
            CastlingType::BlackQueenSide => self.black_queen_side_castle,
        }
    }

    /// The key of an en passant target on column `file`.
    pub closed spec fn en_passant_key(&self, file: int) -> u64 {
        self.en_passant_files@[file]
    }

    /// The key that is present when black is to move.
    pub closed spec fn black_key(&self) -> u64 {
        self.black_to_move
    }

    /// Whether every key of the table is the draw that the fixed seed gives for its place.
    pub closed spec fn is_seeded(&self) -> bool {
        &&& forall|k: int, j: int, i: int|
            0 <= k < 12 && 0 <= j < 12 && 0 <= i < 12 ==> #[trigger] self.piece_square_table[k][j][i]
                == key_draw(table_draw(k, j, i))
        &&& forall|i: int|
            0 <= i < 12 ==> #[trigger] self.en_passant_files[i] == key_draw(EN_PASSANT_DRAW + i)
        &&& self.black_to_move == key_draw(BLACK_TO_MOVE_DRAW as int)
        &&& self.white_king_side_castle == key_draw(BLACK_TO_MOVE_DRAW + 1)
        &&& self.white_queen_side_castle == key_draw(BLACK_TO_MOVE_DRAW + 2)
        &&& self.black_king_side_castle == key_draw(BLACK_TO_MOVE_DRAW + 3)
        &&& self.black_queen_side_castle == key_draw(BLACK_TO_MOVE_DRAW + 4)
    }

    /// Builds the key table from a generator seeded with a fixed seed, so that recreating the
    /// hasher always gives the same keys.
    pub fn create_zobrist_hasher() -> (r: ZobristHasher)
        ensures
            r.is_seeded(),
    {
        let mut piece_square_table = [[[0u64; BOARD_SIZE]; BOARD_SIZE]; PIECE_TYPES];
        for i in 0..BOARD_SIZE
            invariant
                forall|k2: int, j2: int, i2: int|
                    0 <= k2 < 12 && 0 <= j2 < 12 && 0 <= i2 < i ==> #[trigger] piece_square_table[k2][j2][i2]
                        == key_draw(table_draw(k2, j2, i2)),
        {
            for j in 0..BOARD_SIZE
                invariant
                    i < BOARD_SIZE,
                    forall|k2: int, j2: int, i2: int|
                        0 <= k2 < 12 && 0 <= j2 < 12 && 0 <= i2 < 12 && (i2 < i || (i2 == i && j2 < j))
                            ==> #[trigger] piece_square_table[k2][j2][i2] == key_draw(table_draw(k2, j2, i2)),
            {
                for k in 0..PIECE_TYPES
                    invariant
                        i < BOARD_SIZE,
                        j < BOARD_SIZE,
                        forall|k2: int, j2: int, i2: int|
                            0 <= k2 < 12 && 0 <= j2 < 12 && 0 <= i2 < 12 && (i2 < i || (i2 == i && j2 < j) || (
                            i2 == i && j2 == j && k2 < k)) ==> #[trigger] piece_square_table[k2][j2][i2]
                                == key_draw(table_draw(k2, j2, i2)),
                {
                    let draw: u64 = (i * 144 + j * 12 + k) as u64;
                    piece_square_table[k][j][i] = stream_word(ZOBRIST_SEED, 2 * (draw as u128));
                }
            }
        }
        let mut en_passant_files = [0u64; BOARD_SIZE];
        for i in 0..BOARD_SIZE
            invariant
                forall|i2: int|
                    0 <= i2 < i ==> #[trigger] en_passant_files[i2] == key_draw(EN_PASSANT_DRAW + i2),
        {
            let draw: u64 = EN_PASSANT_DRAW + i as u64;
            en_passant_files[i] = stream_word(ZOBRIST_SEED, 2 * (draw as u128));
        }
        let black_to_move = stream_word(ZOBRIST_SEED, 2 * (BLACK_TO_MOVE_DRAW as u128));
        let white_king_side_castle = stream_word(ZOBRIST_SEED, 2 * (BLACK_TO_MOVE_DRAW as u128 + 1));
        let white_queen_side_castle = stream_word(ZOBRIST_SEED, 2 * (BLACK_TO_MOVE_DRAW as u128 + 2));
        let black_king_side_castle = stream_word(ZOBRIST_SEED, 2 * (BLACK_TO_MOVE_DRAW as u128 + 3));
        let black_queen_side_castle = stream_word(ZOBRIST_SEED, 2 * (BLACK_TO_MOVE_DRAW as u128 + 4));
        ZobristHasher {
            piece_square_table,
            black_to_move,
            white_king_side_castle,
            white_queen_side_castle,
            black_king_side_castle,
            black_queen_side_castle,
            en_passant_files,
        }
    }

    pub fn get_val_for_piece(&self, piece: Piece, point: Point) -> (r: ZobristKey)
        requires
            point.0 < BOARD_SIZE,
            point.1 < BOARD_SIZE,
        ensures
            r == self.piece_key(piece, point.0 as int, point.1 as int),
    {
        // shift everything by 6 for black pieces
        // ensures each piece,color pair gets a unique number in [0,11]
        let index = slot_of(piece.kind) + if piece.color == PieceColor::White { 0 } else { 6 };
        self.piece_square_table[index][point.1][point.0]
    }

    pub fn get_val_for_castling(&self, castling_type: CastlingType) -> (r: ZobristKey)
        ensures
            r == self.castle_key(castling_type),
    {
        match castling_type {
            CastlingType::WhiteKingSide => self.white_king_side_castle,
            CastlingType::WhiteQueenSide => self.white_queen_side_castle,
            CastlingType::BlackKingSide => self.black_king_side_castle,
            CastlingType::BlackQueenSide => self.black_queen_side_castle,
        }
    }

    pub fn get_val_for_en_passant(&self, file: usize) -> (r: ZobristKey)
        requires
            file < BOARD_SIZE,
        ensures
            r == self.en_passant_key(file as int),
    {
        self.en_passant_files[file]
    }

    pub fn get_black_to_move_val(&self) -> (r: ZobristKey)
        ensures
            r == self.black_key(),
    {
        self.black_to_move
    }
}

/// Recreating the hasher always gives the same keys: two seeded tables are equal.
pub proof fn lemma_seeded_unique(a: ZobristHasher, b: ZobristHasher)
    requires
        a.is_seeded(),
        b.is_seeded(),
    ensures
        a == b,
{
    assert forall|k: int, j: int| 0 <= k < 12 && 0 <= j < 12 implies a.piece_square_table[k][j]
        =~= b.piece_square_table[k][j] by {
        assert forall|i: int| 0 <= i < 12 implies a.piece_square_table[k][j][i]
            == b.piece_square_table[k][j][i] by {
            assert(a.piece_square_table[k][j][i] == key_draw(table_draw(k, j, i)));
            assert(b.piece_square_table[k][j][i] == key_draw(table_draw(k, j, i)));
        }
    }
    assert forall|k: int| 0 <= k < 12 implies a.piece_square_table[k] =~= b.piece_square_table[k] by {
        assert forall|j: int| 0 <= j < 12 implies a.piece_square_table[k][j]
            == b.piece_square_table[k][j] by {
            assert(a.piece_square_table[k][j] =~= b.piece_square_table[k][j]);
        }
    }
    assert(a.piece_square_table =~= b.piece_square_table);
    assert forall|i: int| 0 <= i < 12 implies a.en_passant_files[i] == b.en_passant_files[i] by {
        assert(a.en_passant_files[i] == key_draw(EN_PASSANT_DRAW + i));
    }
    assert(a.en_passant_files =~= b.en_passant_files);
}

} // verus!
