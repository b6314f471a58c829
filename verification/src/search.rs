use crate::board::{BoardState, Point};
use crate::zobrist::ZobristKey;
use vstd::prelude::*;

verus! {

pub const MAX_DEPTH: u8 = 100;

pub const KILLER_MOVE_PLY_SIZE: usize = 2;

/*
    Information about the current search
*/
#[derive(Copy, Clone)]
pub struct SearchContext {
    pub killer_moves: [[ZobristKey; 2]; 100],  // the killer moves for this search
    pub pv_moves: [Option<(Point, Point)>; 100],  // the principle variation for this search
    pub cur_line: [Option<(Point, Point)>; 100],  // the current line being considered for this search
    pub nodes_searched: u32,
}

impl SearchContext {
    pub fn new_search() -> (r: SearchContext)
        ensures
            forall|i: int, j: int| 0 <= i < 100 && 0 <= j < 2 ==> #[trigger] r.killer_moves[i][j] == 0,
            forall|i: int| 0 <= i < 100 ==> #[trigger] r.pv_moves[i] == None::<(Point, Point)>,
            forall|i: int| 0 <= i < 100 ==> #[trigger] r.cur_line[i] == None::<(Point, Point)>,
            r.nodes_searched == 0,
    {
        SearchContext {
            killer_moves: [[0u64; 2]; 100],
            pv_moves: [None; 100],
            cur_line: [None; 100],
            nodes_searched: 0,
        }
    }

    /// Counts one more node; the count wraps around after `u32::MAX`.
    pub fn node_searched(&mut self)
        ensures
            *final(self) == (SearchContext {
                nodes_searched: old(self).nodes_searched.wrapping_add(1),
                ..*old(self)
            }),
    {
        self.nodes_searched = self.nodes_searched.wrapping_add(1);
    }

    /// Remembers the move that led to `mov` as a killer move at `ply_from_root`: unless it is
    /// already one there, it becomes the first and the others move back one place, the last
    /// one dropping out.
    pub fn insert_killer_move(&mut self, ply_from_root: i32, mov: &BoardState)
        requires
            0 <= ply_from_root < MAX_DEPTH,
        ensures
            ({
                let ply = ply_from_root as int;
                let row = old(self).killer_moves[ply];
                let key = mov.zobrist_key;
                &&& final(self).pv_moves == old(self).pv_moves
                &&& final(self).cur_line == old(self).cur_line
                &&& final(self).nodes_searched == old(self).nodes_searched
                &&& forall|i: int| 0 <= i < 100 && i != ply ==> #[trigger] final(self).killer_moves[i]
                    == old(self).killer_moves[i]
                &&& if row@.contains(key) {
                    final(self).killer_moves[ply] == row
                } else {
                    final(self).killer_moves[ply][0] == key && final(self).killer_moves[ply][1]
                        == row[0]
                }
            }),
    {
        let ply = ply_from_root as usize;
        let key = mov.zobrist_key;
        if self.killer_moves[ply][0] == key || self.killer_moves[ply][1] == key {
            proof {
                let row = old(self).killer_moves[ply as int];
                if row[0] == key {
                    assert(row@[0] == key);
                } else {
                    assert(row@[1] == key);
                }
            }
            return;
        }
        proof {
            let row = old(self).killer_moves[ply as int];
            assert forall|j: int| 0 <= j < 2 implies row@[j] != key by {}
            assert(!row@.contains(key));
        }
        // with two killer moves per ply, the first moves back to the second place
        let first = self.killer_moves[ply][0];
        self.killer_moves[ply][1] = first;
        self.killer_moves[ply][0] = key;
    }

    pub fn insert_into_cur_line(&mut self, ply_from_root: i32, mov: &BoardState)
        requires
            0 <= ply_from_root < MAX_DEPTH,
        ensures
            *final(self) == (SearchContext {
                cur_line: final(self).cur_line,
                ..*old(self)
            }),
            final(self).cur_line@ == old(self).cur_line@.update(ply_from_root as int, mov.last_move),
    {
        self.cur_line[ply_from_root as usize] = mov.last_move;
    }

    /// The current line becomes the principal variation.
    pub fn set_principle_variation(&mut self)
        ensures
            *final(self) == (SearchContext { pv_moves: old(self).cur_line, ..*old(self) }),
    {
        self.pv_moves = self.cur_line;
    }

    // reset the required data to search the next depth
    pub fn reset_search(&mut self)
        ensures
            final(self).killer_moves == old(self).killer_moves,
            final(self).pv_moves == old(self).pv_moves,
            final(self).nodes_searched == 0,
            forall|i: int| 0 <= i < 100 ==> #[trigger] final(self).cur_line[i] == None::<(Point, Point)>,
    {
        self.nodes_searched = 0;
        self.cur_line = [None; 100];
    }
}

} // verus!
