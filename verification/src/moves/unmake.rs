use vstd::prelude::*;
use crate::board::Board;
use crate::board::constants::HOLE;
use crate::board::types::{spec_opposite, Piece, Square};
use crate::moves::make_move::rep_remove;
use crate::moves::undo::{CapturedPiece, UndoMove};

verus! {

broadcast use vstd::std_specs::hash::group_hash_axioms;

/// The squares with the recorded pieces put back, in record order.
pub open spec fn restore_fold(c: Seq<Piece>, caps: Seq<CapturedPiece>) -> Seq<Piece>
    decreases caps.len(),
{
    if caps.len() == 0 {
        c
    } else {
        restore_fold(c, caps.drop_last()).update(caps.last().square as int, caps.last().piece)
    }
}

/// The squares after the piece on `to` goes back to `from` and the captured
/// pieces return.
pub open spec fn unmade_cells(c: Seq<Piece>, from: int, to: int, caps: Seq<CapturedPiece>) -> Seq<Piece> {
    restore_fold(c.update(to, Piece::EMPTY).update(from, c[to]), caps)
}

/// A record that `unmake_move` can take back on `b`: the moved piece stands
/// on its destination, its origin is free, and every captured piece goes back
/// to a distinct empty square (a king only where the board has none).
pub open spec fn undo_applicable(b: &Board, undo: &UndoMove) -> bool {
    let from = undo.mv.spec_from();
    let to = undo.mv.spec_to();
    let caps = undo.captures();
    &&& b.wf()
    &&& undo.wf()
    &&& 0 <= from < b.sqs()
    &&& 0 <= to < b.sqs()
    &&& b.board@[to] != Piece::EMPTY
    &&& (from == to || b.board@[from] == Piece::EMPTY)
    &&& forall|k: int|
        0 <= k < caps.len() ==> {
            let cp = #[trigger] caps[k];
            &&& cp.square < b.sqs()
            &&& cp.square != from
            &&& cp.square != to
            &&& b.board@[cp.square as int] == Piece::EMPTY
            &&& (cp.piece == Piece::KING ==> b.king_sq == HOLE)
        }
    &&& forall|j: int, k: int| 0 <= j < k < caps.len() ==> caps[j].square != caps[k].square
    &&& forall|j: int, k: int|
        0 <= j < k < caps.len() ==> !(caps[j].piece == Piece::KING && caps[k].piece == Piece::KING)
    &&& (undo.last_move_to == HOLE || 0 <= undo.last_move_to < b.sqs())
}

/// Whether some record would put back an empty piece.
pub open spec fn has_empty_record(caps: Seq<CapturedPiece>) -> bool {
    exists|k: int| 0 <= k < caps.len() && (#[trigger] caps[k]).piece == Piece::EMPTY
}

/// What a successful `unmake_move` leaves.
pub open spec fn unmake_post(old: &Board, undo: &UndoMove, new: &Board) -> bool {
    let from = undo.mv.spec_from();
    let to = undo.mv.spec_to();
    &&& new.wf()
    &&& new.board@ == unmade_cells(old.board@, from, to, undo.captures())
    &&& new.side_to_move == spec_opposite(old.side_to_move)
    &&& new.last_move_to == undo.last_move_to
    &&& new.was_capture == undo.was_capture
    &&& new.rep_table@ == rep_remove(old.rep_table@, old.zobrist)
    &&& new.rules == old.rules
    &&& new.halfmove_clock == old.halfmove_clock
    &&& new.halfmove_count == old.halfmove_count
    &&& new.zobrist_data == old.zobrist_data
    &&& new.precomputed == old.precomputed
}

/// Putting pieces back keeps the number of squares.
pub proof fn lemma_restore_len(c: Seq<Piece>, caps: Seq<CapturedPiece>)
    requires
        forall|i: int| 0 <= i < caps.len() ==> 0 <= #[trigger] caps[i].square < c.len(),
    ensures
        restore_fold(c, caps).len() == c.len(),
    decreases caps.len(),
{
    if caps.len() > 0 {
        let init = caps.drop_last();
        assert forall|i: int| 0 <= i < init.len() implies 0 <= #[trigger] init[i].square < c.len() by {
            assert(init[i] == caps[i]);
        }
        lemma_restore_len(c, init);
    }
}

/// Where the records name distinct squares, the square of record `k` ends
/// up with its piece.
pub proof fn lemma_restore_named(c: Seq<Piece>, caps: Seq<CapturedPiece>, k: int)
    requires
        0 <= k < caps.len(),
        forall|i: int| 0 <= i < caps.len() ==> 0 <= #[trigger] caps[i].square < c.len(),
        forall|i: int, j: int| 0 <= i < j < caps.len() ==> caps[i].square != caps[j].square,
    ensures
        restore_fold(c, caps)[caps[k].square as int] == caps[k].piece,
    decreases caps.len(),
{
    let init = caps.drop_last();
    let last = caps.len() - 1;
    if k < last {
        assert(init[k] == caps[k]);
        assert(caps[k].square != caps[last].square);
        assert forall|i: int| 0 <= i < init.len() implies 0 <= #[trigger] init[i].square < c.len() by {
            assert(init[i] == caps[i]);
        }
        assert forall|i: int, j: int| 0 <= i < j < init.len() implies init[i].square != init[j].square by {
            assert(init[i] == caps[i] && init[j] == caps[j]);
        }
        lemma_restore_named(c, init, k);
        assert forall|i: int| 0 <= i < init.len() implies 0 <= #[trigger] init[i].square < c.len() by {
            assert(init[i] == caps[i]);
        }
        lemma_restore_len(c, init);
    } else {
        assert forall|i: int| 0 <= i < init.len() implies 0 <= #[trigger] init[i].square < c.len() && init[i].square != caps[last].square by {
            assert(init[i] == caps[i]);
        }
        lemma_restore_untouched(c, init, caps[last].square as int);
    }
}

/// A square no record names keeps its piece.
pub proof fn lemma_restore_untouched(c: Seq<Piece>, caps: Seq<CapturedPiece>, s: int)
    requires
        0 <= s < c.len(),
        forall|k: int| 0 <= k < caps.len() ==> 0 <= #[trigger] caps[k].square < c.len(),
        forall|k: int| 0 <= k < caps.len() ==> (#[trigger] caps[k]).square != s,
    ensures
        restore_fold(c, caps).len() == c.len(),
        restore_fold(c, caps)[s] == c[s],
    decreases caps.len(),
{
    if caps.len() > 0 {
        let init = caps.drop_last();
        assert forall|k: int| 0 <= k < init.len() implies 0 <= #[trigger] init[k].square < c.len()
            && init[k].square != s by {
            assert(init[k] == caps[k]);
        }
        lemma_restore_untouched(c, init, s);
        assert(caps[caps.len() - 1].square != s);
    }
}

/// One more record put back: its square was still as before the restore began.
proof fn lemma_restore_step(c: Seq<Piece>, caps: Seq<CapturedPiece>, i: int)
    requires
        0 <= i < caps.len(),
        forall|k: int| 0 <= k < caps.len() ==> 0 <= #[trigger] caps[k].square < c.len(),
        forall|j: int, k: int| 0 <= j < k < caps.len() ==> caps[j].square != caps[k].square,
    ensures
        restore_fold(c, caps.subrange(0, i))[caps[i].square as int] == c[caps[i].square as int],
        restore_fold(c, caps.subrange(0, i + 1)) == restore_fold(c, caps.subrange(0, i)).update(
            caps[i].square as int,
            caps[i].piece,
        ),
{
    let pre = caps.subrange(0, i);
    let s = caps[i].square as int;
    assert forall|k: int| 0 <= k < pre.len() implies 0 <= #[trigger] pre[k].square < c.len()
        && pre[k].square != s by {
        assert(pre[k] == caps[k]);
    }
    lemma_restore_untouched(c, pre, s);
    assert(caps.subrange(0, i + 1).drop_last() =~= pre);
}

impl Board {
    fn remove_position_from_rep_table(&mut self)
        ensures
            final(self).rep_table@ == rep_remove(old(self).rep_table@, old(self).zobrist),
            *final(self) == (Board { rep_table: final(self).rep_table, ..*old(self) }),
    {
        let z = self.zobrist;
        let count = match self.rep_table.get(&z) {
            Some(c) => Some(*c),
            None => None,
        };
        match count {
            Some(c) => {
                if c > 1 {
                    self.rep_table.insert(z, c - 1);
                } else {
                    self.rep_table.remove(&z);
                }
            },
            None => {},
        }
    }

    /// Takes back the move recorded in `undo`: the piece returns to its
    /// origin, the captured pieces return, the side to move flips back and the
    /// position is uncounted for repetitions. A record holding an empty piece
    /// is refused.
    pub fn unmake_move(&mut self, undo: &mut UndoMove) -> (r: Result<(), &'static str>)
        requires
            undo_applicable(old(self), old(undo)),
        ensures
            *final(undo) == *old(undo),
            final(self).wf(),
            r is Err <==> has_empty_record(old(undo).captures()),
            r is Ok ==> unmake_post(old(self), old(undo), final(self)),
    {
        let ghost b0 = *self;
        let ghost caps = undo.captures();
        self.remove_position_from_rep_table();

        let from = undo.mv.from();
        let to = undo.mv.to();

        let piece = self.board[to];
        self.clear_piece(to);
        let res = self.set_piece(from, piece);
        proof {
            assert(res is Ok);
        }
        let ghost mb = b0.board@.update(to as int, Piece::EMPTY).update(from as int, b0.board@[to as int]);
        let ghost b1 = *self;
        proof {
            assert(self.board@ == mb);
            assert(self.board@ == restore_fold(mb, caps.subrange(0, 0)));
            // The board has no king where a king is to come back.
            assert forall|k: int| 0 <= k < caps.len() && (#[trigger] caps[k]).piece == Piece::KING implies self.king_sq
                == HOLE by {
                assert(b0.king_sq == HOLE);
                if b0.board@[to as int] == Piece::KING {
                    assert(b0.king_sq == to);
                }
            }
        }

        let count = undo.captured_pieces_count as usize;
        let mut i: usize = 0;
        while i < count
            invariant
                self.wf(),
                self.same_except_cells(&b1),
                undo_applicable(&b0, undo),
                caps == undo.captures(),
                count == caps.len(),
                i <= count,
                b0.sqs() == self.sqs(),
                mb.len() == b0.sqs(),
                mb == b0.board@.update(to as int, Piece::EMPTY).update(from as int, b0.board@[to as int]),
                from == undo.mv.spec_from(),
                to == undo.mv.spec_to(),
                self.board@ == restore_fold(mb, caps.subrange(0, i as int)),
                forall|k: int| 0 <= k < i ==> (#[trigger] caps[k]).piece != Piece::EMPTY,
                forall|k: int| i <= k < caps.len() && (#[trigger] caps[k]).piece == Piece::KING ==> self.king_sq == HOLE,
            decreases count - i,
        {
            let cp = undo._captured_pieces[i];
            proof {
                assert(cp == caps[i as int]);
                lemma_restore_step(mb, caps, i as int);
            }
            let res = self.set_piece(cp.square, cp.piece);
            match res {
                Ok(()) => {},
                Err(e) => {
                    return Err(e);
                },
            }
            proof {
                assert forall|k: int| i + 1 <= k < caps.len() && (#[trigger] caps[k]).piece == Piece::KING implies self.king_sq
                    == HOLE by {
                    assert(cp.piece != Piece::KING);
                }
            }
            i += 1;
        }
        proof {
            assert(caps.subrange(0, count as int) =~= caps);
            assert(!has_empty_record(caps));
        }

        self.flip_side();

        self.last_move_to = undo.last_move_to;
        self.was_capture = undo.was_capture;
        Ok(())
    }
}

} // verus!
