use vstd::prelude::*;
use crate::moves::mv::Move;

verus! {

/// What a finished search answers: the move it chose and that move's score.
#[derive(Clone, Copy, Debug, PartialEq, Eq, Structural)]
pub struct SearchResponse {
    pub best_move: Move,
    pub score: i32,
}

} // verus!
