use vstd::prelude::*;
use crate::board::Board;
use crate::board::constants::HOLE;
use crate::board::utils::{col_of, lemma_small_board, lemma_square_parts, row_of};
use crate::evaluation::score::{line_mobility, slide_count};
use crate::moves::mv::Move;
use crate::utils::bits::{bit16, fits16, lemma_bit16_clear_single, lemma_bit16_or_single};

verus! {

/// How many squares a piece on `pos` slides to along a line with occupancy `occ`.
pub open spec fn mobility(occ: u16, pos: int, n: int) -> int {
    slide_count(occ, pos, n, n)
}

/// `x` with bit `i` cleared.
pub open spec fn without_bit(x: u16, i: int) -> u16 {
    x & !(1u16 << (i as u16))
}

/// `x` with bit `i` set.
pub open spec fn with_bit(x: u16, i: int) -> u16 {
    x | (1u16 << (i as u16))
}

/// A count with its bit `i` cleared, as the estimate does for the square the
/// king leaves.
pub open spec fn count_without_bit(x: int, i: int) -> int {
    ((x as u8) & !(1u8 << (i as u8))) as int
}

/// The change in the king's sliding range that a move brings, as estimated
/// from the occupancy of the king's row and column: a king move is measured
/// from its new square with its old square cleared from both the lines and
/// the counts; a move that starts on the king's row (column) is taken to stay
/// on it; any other move counts as no change.
pub open spec fn spec_king_mobility_change(b: &Board, mv: Move) -> int {
    let n = b.size();
    let k = b.king_sq as int;
    let row = row_of(k, n);
    let col = col_of(k, n);
    let hor = mobility(b.row_occ@[row], col, n);
    let ver = mobility(b.col_occ@[col], row, n);
    let from = mv.spec_from();
    let to = mv.spec_to();
    if from == k {
        let nr = row_of(to, n);
        let nc = col_of(to, n);
        let nh = count_without_bit(mobility(without_bit(b.row_occ@[nr], col), nc, n), col);
        let nv = count_without_bit(mobility(without_bit(b.col_occ@[nc], row), nr, n), row);
        nh + nv - (hor + ver)
    } else if row_of(from, n) == row {
        mobility(with_bit(without_bit(b.row_occ@[row], col_of(from, n)), col_of(to, n)), col, n) - hor
    } else if col_of(from, n) == col {
        mobility(with_bit(without_bit(b.col_occ@[col], row_of(from, n)), row_of(to, n)), row, n) - ver
    } else {
        0
    }
}

proof fn lemma_fits_without(x: u16, c: int, n: int)
    requires
        fits16(x, n),
        0 <= c < 16,
        0 <= n <= 16,
    ensures
        fits16(without_bit(x, c), n),
{
    assert forall|i: int| n <= i < 16 implies !bit16(without_bit(x, c), i) by {
        lemma_bit16_clear_single(x, c as u16, i as u16);
    }
}

proof fn lemma_fits_with(x: u16, t: int, n: int)
    requires
        fits16(x, n),
        0 <= t < n <= 16,
    ensures
        fits16(with_bit(x, t), n),
{
    assert forall|i: int| n <= i < 16 implies !bit16(with_bit(x, t), i) by {
        lemma_bit16_or_single(x, t as u16, i as u16);
    }
}

/// How much the king's sliding range changes with `mv`.
pub fn king_mobility_change(board: &Board, mv: Move) -> (r: i32)
    requires
        board.wf(),
        board.king_sq != HOLE,
        mv.spec_from() < board.sqs(),
        mv.spec_to() < board.sqs(),
        mv.spec_from() == board.king_sq ==> row_of(board.king_sq as int, board.size()) < 8 && col_of(
            board.king_sq as int,
            board.size(),
        ) < 8,
    ensures
        r == spec_king_mobility_change(board, mv),
{
    let n = board.board_size();
    let king = board.king_sq as usize;
    proof {
        lemma_small_board(n as int);
        lemma_square_parts(king as int, n as int);
    }
    let row = board.precomputed.row[king];
    let col = board.precomputed.col[king];
    let hor = line_mobility(board, col, board.row_occ[row]);
    let ver = line_mobility(board, row, board.col_occ[col]);
    let old_total = hor as i32 + ver as i32;
    let from = mv.from();
    let to = mv.to();
    if from == king {
        proof {
            lemma_square_parts(to as int, n as int);
        }
        let new_row = board.precomputed.row[to];
        let new_col = board.precomputed.col[to];
        let new_row_occ = board.row_occ[new_row] & !(1u16 << (col as u16));
        let new_col_occ = board.col_occ[new_col] & !(1u16 << (row as u16));
        proof {
            lemma_fits_without(board.row_occ@[new_row as int], col as int, n as int);
            lemma_fits_without(board.col_occ@[new_col as int], row as int, n as int);
        }
        let new_hor = line_mobility(board, new_col, new_row_occ);
        let new_ver = line_mobility(board, new_row, new_col_occ);
        let new_hor = new_hor & !(1u8 << (col as u8));
        let new_ver = new_ver & !(1u8 << (row as u8));
        return new_hor as i32 + new_ver as i32 - old_total;
    } else {
        proof {
            lemma_square_parts(from as int, n as int);
            lemma_square_parts(to as int, n as int);
        }
        let from_row = board.precomputed.row[from];
        let from_col = board.precomputed.col[from];
        let to_row = board.precomputed.row[to];
        let to_col = board.precomputed.col[to];
        if from_row == row {
            let new_row_occ = (board.row_occ[row] & !(1u16 << (from_col as u16))) | (1u16 << (to_col as u16));
            proof {
                lemma_fits_without(board.row_occ@[row as int], from_col as int, n as int);
                lemma_fits_with(without_bit(board.row_occ@[row as int], from_col as int), to_col as int, n as int);
            }
            let new_hor = line_mobility(board, col, new_row_occ);
            return new_hor as i32 + ver as i32 - old_total;
        } else if from_col == col {
            let new_col_occ = (board.col_occ[col] & !(1u16 << (from_row as u16))) | (1u16 << (to_row as u16));
            proof {
                lemma_fits_without(board.col_occ@[col as int], from_row as int, n as int);
                lemma_fits_with(without_bit(board.col_occ@[col as int], from_row as int), to_row as int, n as int);
            }
            let new_ver = line_mobility(board, row, new_col_occ);
            return hor as i32 + new_ver as i32 - old_total;
        }
    }
    0
}

} // verus!
