use crate::board::{BoardState, Point};
use crate::zobrist::ZobristKey;
use std::collections::HashMap;
use vstd::prelude::*;

verus! {

broadcast use vstd::std_specs::hash::group_hash_axioms;

/// How a stored evaluation bounds the true value of a position.
#[derive(Copy, Clone, PartialEq, Eq, Debug, Structural)]
pub enum NodeType {
    LowerBound,
    Exact,
    UpperBound,
}

/// What is remembered of a searched position.
#[derive(Copy, Clone)]
pub struct TableEntry {
    depth: u8,
    eval: i32,
    node_type: NodeType,
    best_move: Option<(Point, Point)>,
}

impl TableEntry {
    /// The entry holding the given search result.
    pub closed spec fn of(depth: u8, eval: i32, node_type: NodeType, best_move: Option<(Point, Point)>) -> TableEntry {
        TableEntry { depth, eval, node_type, best_move }
    }
}

/// Search results keyed by the Zobrist key of the position they belong to.
pub struct TranspositionTable {
    pub table: HashMap<ZobristKey, TableEntry>,
}

impl TranspositionTable {
    pub fn new() -> (r: TranspositionTable)
        ensures
            r.table@ == Map::<ZobristKey, TableEntry>::empty(),
    {
        TranspositionTable { table: HashMap::new() }
    }

    pub fn insert(
        &mut self,
        depth: u8,
        eval: i32,
        node_type: NodeType,
        best_move: Option<(Point, Point)>,
        board: &BoardState,
    )
        ensures
            final(self).table@ == old(self).table@.insert(
                board.zobrist_key,
                TableEntry::of(depth, eval, node_type, best_move),
            ),
    {
        let entry = TableEntry { depth, eval, node_type, best_move };
        self.table.insert(board.zobrist_key, entry);
    }

    pub fn probe(&self, board: &BoardState) -> (r: Option<&TableEntry>)
        ensures
            match r {
                Some(e) => self.table@.contains_key(board.zobrist_key) && *e == self.table@[board.zobrist_key],
                None => !self.table@.contains_key(board.zobrist_key),
            },
    {
        self.table.get(&board.zobrist_key)
    }
}

/// What a probe finds after an insert: the entry just stored for that position, and for any
/// other position what was there before.
pub proof fn lemma_probe_after_insert(
    m: Map<ZobristKey, TableEntry>,
    key: ZobristKey,
    e: TableEntry,
    other: ZobristKey,
)
    ensures
        m.insert(key, e).contains_key(key) && m.insert(key, e)[key] == e,
        other != key ==> (m.insert(key, e).contains_key(other) == m.contains_key(other) && (
        m.contains_key(other) ==> m.insert(key, e)[other] == m[other])),
{
}

} // verus!
