use vstd::prelude::*;

verus! {

/// The clocks of a game as the GUI reports them; all times are in milliseconds.
pub struct GameTime {
    pub wtime: i128,
    pub btime: i128,
    pub winc: i128,
    pub binc: i128,
    pub movestogo: Option<u32>,
}

} // verus!
