//! The score shown beside the board.
use vstd::prelude::*;

verus! {

/// The score of a game: the sum of the values of the tiles on the board
/// when it was last counted.
#[derive(Clone, Copy, Debug)]
pub struct Score {
    pub value: i32,
}

impl Default for Score {
    fn default() -> (s: Self)
        ensures
            s.value == 0,
    {
        Score { value: 0 }
    }
}

} // verus!
