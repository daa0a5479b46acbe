use vstd::prelude::*;
use crate::board::constants::SQS;
use crate::board::types::{spec_side_index, Side, Square};
use crate::moves::mv::Move;

verus! {

/// An entry that grows past this is halved.
pub const MAX_HISTORY_SCORE: i32 = 16384;

/// The slot of a side's move from `from` to `to`.
pub open spec fn history_slot(side: Side, from: int, to: int) -> int {
    spec_side_index(side) * (SQS * SQS) + from * SQS + to
}

/// An entry after a cutoff at `depth`: the square of the depth added, the
/// sum halved when it passes `MAX_HISTORY_SCORE`.
pub open spec fn bumped(entry: int, depth: int) -> int {
    let e = entry + depth * depth;
    if e > MAX_HISTORY_SCORE {
        e / 2
    } else {
        e
    }
}

/// The history heuristic: a score per side and per pair of squares, raised
/// for moves that caused cutoffs.
pub struct History {
    pub data: Vec<i32>,
}

impl History {
    /// One entry per side and pair of squares, none negative.
    pub open spec fn wf(&self) -> bool {
        &&& self.data@.len() == 2 * SQS * SQS
        &&& forall|i: int| 0 <= i < self.data@.len() ==> 0 <= #[trigger] self.data@[i]
    }

    /// The entry of a side's move from `from` to `to`.
    pub open spec fn entry(&self, side: Side, from: int, to: int) -> int {
        self.data@[history_slot(side, from, to)] as int
    }

    pub fn new() -> (h: Self)
        ensures
            h.wf(),
            forall|i: int| 0 <= i < h.data@.len() ==> #[trigger] h.data@[i] == 0,
    {
        let mut data: Vec<i32> = Vec::new();
        let mut i: usize = 0;
        while i < 2 * SQS * SQS
            invariant
                i <= 2 * SQS * SQS,
                data@.len() == i,
                forall|k: int| 0 <= k < i ==> #[trigger] data@[k] == 0,
            decreases 2 * SQS * SQS - i,
        {
            data.push(0);
            i += 1;
        }
        History { data }
    }

    /// Raises the entry of `side`'s move by the square of `depth`, halving it
    /// when it passes the cap; every other entry stays.
    pub fn update(&mut self, side: Side, mv: Move, depth: i32)
        requires
            old(self).wf(),
            mv.spec_from() < SQS,
            mv.spec_to() < SQS,
            old(self).entry(side, mv.spec_from(), mv.spec_to()) + depth * depth <= i32::MAX,
        ensures
            final(self).wf(),
            final(self).data@ == old(self).data@.update(
                history_slot(side, mv.spec_from(), mv.spec_to()),
                bumped(old(self).entry(side, mv.spec_from(), mv.spec_to()), depth as int) as i32,
            ),
    {
        let slot = side.index() * (SQS * SQS) + mv.from() * SQS + mv.to();
        assert(depth * depth >= 0) by (nonlinear_arith);
        let entry = self.data[slot];
        let mut e: i32 = entry + depth * depth;
        if e > MAX_HISTORY_SCORE {
            let sum = e;
            e = e >> 1;
            assert(e == sum / 2) by (bit_vector)
                requires
                    e == sum >> 1,
                    0 <= sum,
            ;
        }
        self.data.set(slot, e);
    }

    /// The entry of `side`'s move from `from` to `to`.
    pub fn get(&self, side: Side, from: Square, to: Square) -> (r: i32)
        requires
            self.wf(),
            from < SQS,
            to < SQS,
        ensures
            r == self.entry(side, from as int, to as int),
            0 <= r,
    {
        self.data[side.index() * (SQS * SQS) + from * SQS + to]
    }
}

} // verus!
