use vstd::prelude::*;
use crate::board::Board;
use crate::board::constants::SQS;
use crate::board::types::{OptionalSquare, Square};
use crate::moves::movegen::MoveGen;
use crate::moves::mv::Move;
use crate::search::history::History;

verus! {

/// Added to the move the transposition table proposes.
pub const HASH_MOVE_BONUS: i32 = 1000000;

/// Added to the first killer move of the ply.
pub const KILLER_MOVE_BONUS: i32 = 900000;

/// Added to the second killer move of the ply.
pub const SECOND_KILLER_MOVE_BONUS: i32 = 800000;

/// Added to a king move onto a corner, which wins at once.
pub const MATE_MOVE_BONUS: i32 = 2000000;

/// The ordering score of a move: a king move onto a corner first, then the
/// table's move, then the two killers, and the history entry in thousandths.
pub open spec fn order_score(board: &Board, tt_move: Move, killers: [Move; 2], history: &History, mv: Move) -> int {
    let from = mv.spec_from();
    let to = mv.spec_to();
    (if board.king_sq == from && board.precomputed.corners_sq@.contains(to as Square) {
        MATE_MOVE_BONUS as int
    } else {
        0
    }) + (if mv == tt_move {
        HASH_MOVE_BONUS as int
    } else {
        0
    }) + (if killers[0] == mv {
        KILLER_MOVE_BONUS as int
    } else if killers[1] == mv {
        SECOND_KILLER_MOVE_BONUS as int
    } else {
        0
    }) + history.entry(board.side_to_move, from, to) / 1000
}

fn corner_listed(list: &Vec<Square>, s: Square) -> (b: bool)
    ensures
        b == list@.contains(s),
{
    let mut i: usize = 0;
    while i < list.len()
        invariant
            i <= list@.len(),
            forall|k: int| 0 <= k < i ==> #[trigger] list@[k] != s,
        decreases list@.len() - i,
    {
        if list[i] == s {
            proof {
                assert(list@[i as int] == s);
            }
            return true;
        }
        i += 1;
    }
    false
}

impl MoveGen {
    /// Scores every current move for picking: `killers` are the two killer
    /// moves of the ply being searched. The moves themselves stay.
    pub fn order_moves(&mut self, board: &Board, tt_move: Move, killers: [Move; 2], history: &History)
        requires
            old(self).wf(),
            history.wf(),
            forall|i: int|
                0 <= i < old(self).count ==> (#[trigger] old(self).moves@[i]).spec_from() < SQS
                    && old(self).moves@[i].spec_to() < SQS,
        ensures
            final(self).wf(),
            final(self).moves@ == old(self).moves@,
            final(self).count == old(self).count,
            final(self).move_scores@.len() == old(self).move_scores@.len(),
            forall|i: int|
                0 <= i < old(self).count ==> #[trigger] final(self).move_scores@[i] == order_score(
                    board,
                    tt_move,
                    killers,
                    history,
                    old(self).moves@[i],
                ),
            forall|i: int|
                old(self).count <= i < old(self).move_scores@.len() ==> #[trigger] final(self).move_scores@[i]
                    == old(self).move_scores@[i],
    {
        let mut i: usize = 0;
        while i < self.count
            invariant
                self.wf(),
                history.wf(),
                self.moves@ == old(self).moves@,
                self.count == old(self).count,
                self.move_scores@.len() == old(self).move_scores@.len(),
                forall|k: int|
                    0 <= k < self.count ==> (#[trigger] self.moves@[k]).spec_from() < SQS && self.moves@[k].spec_to()
                        < SQS,
                i <= self.count,
                forall|k: int|
                    0 <= k < i ==> #[trigger] self.move_scores@[k] == order_score(
                        board,
                        tt_move,
                        killers,
                        history,
                        self.moves@[k],
                    ),
                forall|k: int|
                    i <= k < self.move_scores@.len() ==> #[trigger] self.move_scores@[k] == old(self).move_scores@[k],
            decreases self.count - i,
        {
            let mv = self.moves[i];
            let from = mv.from();
            let to = mv.to();
            let mut score: i32 = 0;
            if board.king_sq == from as OptionalSquare && corner_listed(&board.precomputed.corners_sq, to) {
                score = score + MATE_MOVE_BONUS;
            }
            if mv == tt_move {
                score = score + HASH_MOVE_BONUS;
            }
            if killers[0] == mv {
                score = score + KILLER_MOVE_BONUS;
            } else if killers[1] == mv {
                score = score + SECOND_KILLER_MOVE_BONUS;
            }
            let h = history.get(board.side_to_move, from, to);
            score = score + h / 1000;
            self.move_scores.set(i, score);
            i += 1;
        }
    }
}

} // verus!
