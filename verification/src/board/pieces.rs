use vstd::prelude::*;
use crate::board::constants::{ATTACKERS_MAX, DEFENDERS_MAX, HOLE};
use crate::board::state::{
    lemma_count_bound, lemma_count_has, lemma_count_update, lemma_list_add, lemma_list_frame,
    lemma_list_remove, lemma_occ_update, lemma_xor_self_inverse, lemma_zobrist_fold_update,
    count_piece, zobrist_fold, zobrist_term,
};
use crate::board::types::{piece_index, spec_opposite, OptionalSquare, Piece, Side, Square};
use crate::board::utils::{col_of, lemma_small_board, lemma_square_parts, row_of};
use crate::board::{spec_zobrist, Board};

verus! {

pub proof fn lemma_zobrist_side_toggle(a: u64, k: u64)
    ensures
        (a ^ k) ^ k == a,
        (a ^ 0u64) ^ k == (a ^ k) ^ 0u64,
        (a ^ k) ^ 0u64 == (a ^ 0u64) ^ k,
{
    assert((a ^ k) ^ k == a) by (bit_vector);
    assert((a ^ 0u64) ^ k == (a ^ k) ^ 0u64) by (bit_vector);
}

pub proof fn lemma_xor_swap3(a: u64, b: u64, c: u64)
    ensures
        (a ^ b) ^ c == (a ^ c) ^ b,
        ((a ^ b) ^ b) == a,
        (a ^ 0u64) == a,
{
    assert((a ^ b) ^ c == (a ^ c) ^ b) by (bit_vector);
    assert(((a ^ b) ^ b) == a) by (bit_vector);
    assert((a ^ 0u64) == a) by (bit_vector);
}

impl Board {
    fn set_attacker(&mut self, sq: Square) -> (r: Result<(), &'static str>)
        requires
            old(self).attackers_count < old(self).attackers@.len(),
            sq < old(self).piece_index_by_square@.len(),
        ensures
            old(self).attackers_count >= ATTACKERS_MAX ==> r is Err && *final(self) == *old(self),
            old(self).attackers_count < ATTACKERS_MAX ==> r is Ok && *final(self) == (Board {
                attackers: final(self).attackers,
                piece_index_by_square: final(self).piece_index_by_square,
                attackers_count: (old(self).attackers_count + 1) as u8,
                ..*old(self)
            }) && final(self).attackers@ == old(self).attackers@.update(
                old(self).attackers_count as int,
                sq,
            ) && final(self).piece_index_by_square@ == old(self).piece_index_by_square@.update(
                sq as int,
                old(self).attackers_count,
            ),
    {
        if self.attackers_count as usize >= ATTACKERS_MAX {
            return Err("Exceeded maximum attackers capacity");
        }

        self.attackers.set(self.attackers_count as usize, sq);
        self.attackers_count += 1;
        self.piece_index_by_square.set(sq, self.attackers_count - 1);

        Ok(())
    }

    fn set_defender(&mut self, sq: Square) -> (r: Result<(), &'static str>)
        requires
            old(self).defenders_count < old(self).defenders@.len(),
            sq < old(self).piece_index_by_square@.len(),
        ensures
            old(self).defenders_count >= DEFENDERS_MAX ==> r is Err && *final(self) == *old(self),
            old(self).defenders_count < DEFENDERS_MAX ==> r is Ok && *final(self) == (Board {
                defenders: final(self).defenders,
                piece_index_by_square: final(self).piece_index_by_square,
                defenders_count: (old(self).defenders_count + 1) as u8,
                ..*old(self)
            }) && final(self).defenders@ == old(self).defenders@.update(
                old(self).defenders_count as int,
                sq,
            ) && final(self).piece_index_by_square@ == old(self).piece_index_by_square@.update(
                sq as int,
                old(self).defenders_count,
            ),
    {
        if self.defenders_count as usize >= DEFENDERS_MAX {
            return Err("Exceeded maximum defenders capacity");
        }

        self.defenders.set(self.defenders_count as usize, sq);
        self.defenders_count += 1;
        self.piece_index_by_square.set(sq, self.defenders_count - 1);

        Ok(())
    }

    fn clear_defender(&mut self, sq: Square)
        requires
            1 <= old(self).defenders_count <= old(self).defenders@.len(),
            sq < old(self).piece_index_by_square@.len(),
            old(self).piece_index_by_square@[sq as int] < old(self).defenders_count,
            old(self).defenders@[old(self).defenders_count - 1] < old(self).piece_index_by_square@.len(),
        ensures
            ({
                let o = *old(self);
                let idx = o.piece_index_by_square@[sq as int];
                let last = o.defenders@[o.defenders_count - 1];
                &&& *final(self) == (Board {
                    defenders: final(self).defenders,
                    piece_index_by_square: final(self).piece_index_by_square,
                    defenders_count: (o.defenders_count - 1) as u8,
                    ..o
                })
                &&& if o.defenders_count == 1 {
                    &&& final(self).defenders@ == o.defenders@
                    &&& final(self).piece_index_by_square@ == o.piece_index_by_square@.update(
                        sq as int,
                        0u8,
                    )
                } else {
                    &&& final(self).defenders@ == o.defenders@.update(idx as int, last)
                    &&& final(self).piece_index_by_square@ == o.piece_index_by_square@.update(
                        last as int,
                        idx,
                    )
                }
            }),
    {
        let index = self.piece_index_by_square[sq];

        if self.defenders_count == 1 {
            self.piece_index_by_square.set(sq, 0);
        } else {
            let last_sq = self.defenders[self.defenders_count as usize - 1];
            self.defenders.set(index as usize, last_sq);
            self.piece_index_by_square.set(last_sq, index);
        }

        self.defenders_count -= 1;
    }

    fn clear_attacker(&mut self, sq: Square)
        requires
            1 <= old(self).attackers_count <= old(self).attackers@.len(),
            sq < old(self).piece_index_by_square@.len(),
            old(self).piece_index_by_square@[sq as int] < old(self).attackers_count,
            old(self).attackers@[old(self).attackers_count - 1] < old(self).piece_index_by_square@.len(),
        ensures
            ({
                let o = *old(self);
                let idx = o.piece_index_by_square@[sq as int];
                let last = o.attackers@[o.attackers_count - 1];
                &&& *final(self) == (Board {
                    attackers: final(self).attackers,
                    piece_index_by_square: final(self).piece_index_by_square,
                    attackers_count: (o.attackers_count - 1) as u8,
                    ..o
                })
                &&& if o.attackers_count == 1 {
                    &&& final(self).attackers@ == o.attackers@
                    &&& final(self).piece_index_by_square@ == o.piece_index_by_square@.update(
                        sq as int,
                        0u8,
                    )
                } else {
                    &&& final(self).attackers@ == o.attackers@.update(idx as int, last)
                    &&& final(self).piece_index_by_square@ == o.piece_index_by_square@.update(
                        last as int,
                        idx,
                    )
                }
            }),
    {
        let index = self.piece_index_by_square[sq];

        if self.attackers_count == 1 {
            self.piece_index_by_square.set(sq, 0);
        } else {
            let last_sq = self.attackers[self.attackers_count as usize - 1];
            self.attackers.set(index as usize, last_sq);
            self.piece_index_by_square.set(last_sq, index);
        }

        self.attackers_count -= 1;
    }

    /// The result of putting `p` on the empty square `sq`.
    pub open spec fn placed(&self, other: &Board, sq: int, p: Piece) -> bool {
        &&& self.wf()
        &&& self.board@ == other.board@.update(sq, p)
        &&& self.same_except_cells(other)
        &&& self.king_sq == (if p == Piece::KING { sq as OptionalSquare } else { other.king_sq })
        &&& self.attackers_count == other.attackers_count + (if p == Piece::ATTACKER { 1int } else { 0int })
        &&& self.defenders_count == other.defenders_count + (if p == Piece::DEFENDER { 1int } else { 0int })
    }

    /// The result of emptying the occupied square `sq`.
    pub open spec fn removed(&self, other: &Board, sq: int) -> bool {
        let p = other.board@[sq];
        &&& self.wf()
        &&& self.board@ == other.board@.update(sq, Piece::EMPTY)
        &&& self.same_except_cells(other)
        &&& self.king_sq == (if p == Piece::KING { HOLE } else { other.king_sq })
        &&& self.attackers_count == other.attackers_count - (if p == Piece::ATTACKER { 1int } else { 0int })
        &&& self.defenders_count == other.defenders_count - (if p == Piece::DEFENDER { 1int } else { 0int })
    }

    /// Puts `piece` on the empty square `sq`. An empty piece is refused.
    pub fn set_piece(&mut self, sq: Square, piece: Piece) -> (r: Result<(), &'static str>)
        requires
            old(self).wf(),
            sq < old(self).sqs(),
            old(self).board@[sq as int] == Piece::EMPTY,
            piece == Piece::KING ==> old(self).king_sq == HOLE,
        ensures
            piece == Piece::EMPTY ==> r is Err && *final(self) == *old(self),
            piece != Piece::EMPTY ==> r is Ok && final(self).placed(old(self), sq as int, piece),
    {
        if piece == Piece::EMPTY {
            return Err("Invalid piece type");
        }
        let ghost o = *self;
        let ghost n = self.size();
        let ghost sqs = self.sqs();
        proof {
            lemma_small_board(n);
            lemma_square_parts(sq as int, n);
            lemma_count_bound(o.board@, Piece::ATTACKER, sqs);
            lemma_count_bound(o.board@, Piece::DEFENDER, sqs);
            lemma_count_has(o.board@, Piece::EMPTY, sq as int, sqs);
            lemma_count_update(o.board@, sq as int, piece, Piece::ATTACKER, sqs);
            lemma_count_update(o.board@, sq as int, piece, Piece::DEFENDER, sqs);
            lemma_zobrist_fold_update(o.zobrist_data, o.board@, sq as int, piece, sqs);
            lemma_occ_update(o.row_occ@, o.col_occ@, o.board@, sq as int, piece, n);
        }

        self.board.set(sq, piece);
        let key = self.zobrist_data.table[piece_index(piece)][sq];
        self.zobrist = self.zobrist ^ key;

        let row = self.precomputed.row[sq];
        let col = self.precomputed.col[sq];

        let ro = self.row_occ[row] | (1u16 << (col as u16));
        self.row_occ.set(row, ro);
        let co = self.col_occ[col] | (1u16 << (row as u16));
        self.col_occ.set(col, co);

        proof {
            let c2 = o.board@.update(sq as int, piece);
            let side_key = if o.side_to_move == Side::DEFENDERS { o.zobrist_data.side } else { 0u64 };
            let f = zobrist_fold(o.zobrist_data, o.board@, sqs);
            assert(zobrist_term(o.zobrist_data, o.board@, sq as int) == 0u64);
            assert(zobrist_term(o.zobrist_data, c2, sq as int) == key);
            lemma_xor_swap3(f, side_key, key);
            lemma_xor_swap3(f, 0u64, key);
            assert(self.board@ == c2);
        }

        if piece == Piece::ATTACKER {
            let r = self.set_attacker(sq);
            proof {
                lemma_list_add(o.board@, o.attackers@, o.piece_index_by_square@, o.attackers_count as int, Piece::ATTACKER, sqs, sq as int);
                lemma_list_frame(o.board@, o.defenders@, o.piece_index_by_square@, o.defenders_count as int, Piece::DEFENDER, sqs, sq as int, piece, self.piece_index_by_square@);
            }
            r
        } else if piece == Piece::DEFENDER {
            let r = self.set_defender(sq);
            proof {
                lemma_list_add(o.board@, o.defenders@, o.piece_index_by_square@, o.defenders_count as int, Piece::DEFENDER, sqs, sq as int);
                lemma_list_frame(o.board@, o.attackers@, o.piece_index_by_square@, o.attackers_count as int, Piece::ATTACKER, sqs, sq as int, piece, self.piece_index_by_square@);
            }
            r
        } else {
            self.king_sq = sq as OptionalSquare;
            proof {
                lemma_list_frame(o.board@, o.defenders@, o.piece_index_by_square@, o.defenders_count as int, Piece::DEFENDER, sqs, sq as int, piece, self.piece_index_by_square@);
                lemma_list_frame(o.board@, o.attackers@, o.piece_index_by_square@, o.attackers_count as int, Piece::ATTACKER, sqs, sq as int, piece, self.piece_index_by_square@);
            }
            Ok(())
        }
    }

    /// Empties the occupied square `sq`.
    pub fn clear_piece(&mut self, sq: Square)
        requires
            old(self).wf(),
            sq < old(self).sqs(),
            old(self).board@[sq as int] != Piece::EMPTY,
        ensures
            final(self).removed(old(self), sq as int),
    {
        let ghost o = *self;
        let ghost n = self.size();
        let ghost sqs = self.sqs();
        let piece = self.board[sq];
        proof {
            lemma_small_board(n);
            lemma_square_parts(sq as int, n);
            lemma_count_update(o.board@, sq as int, Piece::EMPTY, Piece::ATTACKER, sqs);
            lemma_count_update(o.board@, sq as int, Piece::EMPTY, Piece::DEFENDER, sqs);
            lemma_zobrist_fold_update(o.zobrist_data, o.board@, sq as int, Piece::EMPTY, sqs);
            lemma_occ_update(o.row_occ@, o.col_occ@, o.board@, sq as int, Piece::EMPTY, n);
            if piece == Piece::ATTACKER {
                lemma_list_remove(o.board@, o.attackers@, o.piece_index_by_square@, o.attackers_count as int, Piece::ATTACKER, sqs, sq as int);
            }
            if piece == Piece::DEFENDER {
                lemma_list_remove(o.board@, o.defenders@, o.piece_index_by_square@, o.defenders_count as int, Piece::DEFENDER, sqs, sq as int);
            }
        }

        let key = self.zobrist_data.table[piece_index(piece)][sq];
        self.zobrist = self.zobrist ^ key;
        self.board.set(sq, Piece::EMPTY);

        let row = self.precomputed.row[sq];
        let col = self.precomputed.col[sq];

        let ro = self.row_occ[row] & !(1u16 << (col as u16));
        self.row_occ.set(row, ro);
        let co = self.col_occ[col] & !(1u16 << (row as u16));
        self.col_occ.set(col, co);

        proof {
            let c2 = o.board@.update(sq as int, Piece::EMPTY);
            let side_key = if o.side_to_move == Side::DEFENDERS { o.zobrist_data.side } else { 0u64 };
            let f = zobrist_fold(o.zobrist_data, o.board@, sqs);
            assert(zobrist_term(o.zobrist_data, o.board@, sq as int) == key);
            assert(zobrist_term(o.zobrist_data, c2, sq as int) == 0u64);
            lemma_xor_swap3(f, side_key, key);
            lemma_xor_swap3(f ^ key, 0u64, 0u64);
            assert(self.board@ == c2);
        }

        if piece == Piece::ATTACKER {
            self.clear_attacker(sq);
            proof {
                lemma_list_frame(o.board@, o.defenders@, o.piece_index_by_square@, o.defenders_count as int, Piece::DEFENDER, sqs, sq as int, Piece::EMPTY, self.piece_index_by_square@);
            }
        } else if piece == Piece::DEFENDER {
            self.clear_defender(sq);
            proof {
                lemma_list_frame(o.board@, o.attackers@, o.piece_index_by_square@, o.attackers_count as int, Piece::ATTACKER, sqs, sq as int, Piece::EMPTY, self.piece_index_by_square@);
            }
        } else {
            self.king_sq = HOLE;
            proof {
                lemma_list_frame(o.board@, o.defenders@, o.piece_index_by_square@, o.defenders_count as int, Piece::DEFENDER, sqs, sq as int, Piece::EMPTY, self.piece_index_by_square@);
                lemma_list_frame(o.board@, o.attackers@, o.piece_index_by_square@, o.attackers_count as int, Piece::ATTACKER, sqs, sq as int, Piece::EMPTY, self.piece_index_by_square@);
            }
        }
    }

    /// Passes the move to the other side.
    pub fn flip_side(&mut self)
        requires
            old(self).wf(),
        ensures
            final(self).wf(),
            *final(self) == (Board {
                side_to_move: spec_opposite(old(self).side_to_move),
                zobrist: final(self).zobrist,
                ..*old(self)
            }),
    {
        let ghost o = *self;
        let ghost f = zobrist_fold(o.zobrist_data, o.board@, o.board@.len() as int);
        self.set_side_to_move(Side::opposite(self.side_to_move));
        self.zobrist = self.zobrist ^ self.zobrist_data.side;
        proof {
            let k = o.zobrist_data.side;
            lemma_zobrist_side_toggle(f, k);
            lemma_xor_swap3(f, k, k);
            lemma_xor_swap3(f ^ k, 0u64, 0u64);
            if o.side_to_move == Side::DEFENDERS {
                assert(self.zobrist == (f ^ k) ^ k);
                assert(self.zobrist == f ^ 0u64);
            } else {
                assert(self.zobrist == (f ^ 0u64) ^ k);
                assert(self.zobrist == f ^ k);
            }
        }
    }

    /// Gives the move to `side`.
    pub fn set_side(&mut self, side: Side)
        requires
            old(self).wf(),
        ensures
            final(self).wf(),
            *final(self) == (Board { side_to_move: side, zobrist: final(self).zobrist, ..*old(self) }),
    {
        if self.side_to_move != side {
            self.flip_side();
        }
    }
}

} // verus!
