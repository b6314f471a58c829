use crate::board::BoardState;
use crate::zobrist::ZobristKey;
use std::collections::HashMap;
use vstd::prelude::*;

verus! {

broadcast use vstd::std_specs::hash::group_hash_axioms;

/// How many times the position with key `key` has been seen: its entry, or zero.
pub open spec fn seen(m: Map<ZobristKey, u8>, key: ZobristKey) -> int {
    if m.contains_key(key) {
        m[key] as int
    } else {
        0
    }
}

/// The table after one more sighting of `key`.
pub open spec fn with_sighting(m: Map<ZobristKey, u8>, key: ZobristKey) -> Map<ZobristKey, u8> {
    m.insert(key, (seen(m, key) + 1) as u8)
}

/// The table after one sighting of `key` is taken back; a key without an entry stays absent.
pub open spec fn without_sighting(m: Map<ZobristKey, u8>, key: ZobristKey) -> Map<ZobristKey, u8> {
    if m.contains_key(key) {
        m.insert(key, (m[key] - 1) as u8)
    } else {
        m
    }
}

/// Counts how often each position was reached, to detect repetitions.
pub struct DrawTable {
    pub table: HashMap<ZobristKey, u8>,
}

impl DrawTable {
    pub fn new() -> (r: DrawTable)
        ensures
            r.table@ == Map::<ZobristKey, u8>::empty(),
    {
        DrawTable { table: HashMap::new() }
    }

    pub fn clear(&mut self)
        ensures
            final(self).table@ == Map::<ZobristKey, u8>::empty(),
    {
        self.table.clear();
    }

    pub fn remove_board_from_draw_table(&mut self, board: &BoardState)
        requires
            old(self).table@.contains_key(board.zobrist_key) ==> old(self).table@[board.zobrist_key]
                >= 1,
        ensures
            final(self).table@ == without_sighting(old(self).table@, board.zobrist_key),
    {
        match self.table.get(&board.zobrist_key) {
            Some(val) => {
                let v = *val;
                self.table.insert(board.zobrist_key, v - 1);
            },
            None => {},
        }
    }

    pub fn add_board_to_draw_table(&mut self, board: &BoardState)
        requires
            seen(old(self).table@, board.zobrist_key) < 255,
        ensures
            final(self).table@ == with_sighting(old(self).table@, board.zobrist_key),
    {
        let board_count: u8 = match self.table.get(&board.zobrist_key) {
            Some(val) => *val,
            None => 0,
        };
        self.table.insert(board.zobrist_key, board_count + 1);
    }

    /*
        Given the next move as a board determine if making that move would result
        in a three fold repetition
    */
    pub fn is_threefold_repetition(&mut self, board: &BoardState) -> (r: bool)
        ensures
            r == (seen(old(self).table@, board.zobrist_key) >= 2),
            final(self).table@ == old(self).table@,
    {
        let board_count: u8 = match self.table.get(&board.zobrist_key) {
            Some(val) => *val,
            None => 0,
        };
        if board_count >= 2 {
            // this position has been seen at least twice before, so making the move again would be a draw
            return true;
        }
        false
    }
}

/// Taking back a sighting undoes adding it: every position's count is as before.
pub proof fn lemma_add_then_remove(m: Map<ZobristKey, u8>, key: ZobristKey, other: ZobristKey)
    requires
        seen(m, key) < 255,
    ensures
        seen(without_sighting(with_sighting(m, key), key), other) == seen(m, other),
{
}

/// A position reached for the third time is reported as a repetition: after two sightings
/// of a position that was not seen before, its count is two.
pub proof fn lemma_two_sightings_repeat(m: Map<ZobristKey, u8>, key: ZobristKey)
    requires
        seen(m, key) == 0,
    ensures
        seen(with_sighting(with_sighting(m, key), key), key) == 2,
{
}

} // verus!
