use vstd::prelude::*;
use crate::board::Board;
use crate::board::constants::HOLE;
use crate::board::masks::{line_mask_ok, slide_reaches, count_bits16, lemma_fits16_bound};
use crate::board::types::Side;
use crate::board::types::Square;
use crate::board::utils::{col_of, row_of};
use crate::utils::bits::{bit16, fits16};

verus! {

/// The score of a won position.
pub const MATE_SCORE: i32 = 10000;

/// Scores at least this far from zero announce a forced result.
pub const MATE_SCORE_THRESHOLD: i32 = 9800;

/// Whether a score announces a forced result.
pub fn is_mate_score(score: i32) -> (b: bool)
    requires
        score > i32::MIN,
    ensures
        b == (score >= MATE_SCORE_THRESHOLD || score <= -MATE_SCORE_THRESHOLD),
{
    let a = if score < 0 { -score } else { score };
    a >= MATE_SCORE_THRESHOLD
}

/// A score from the defenders' point of view, seen by `side`.
pub fn sided_evaluation(score: i32, side: Side) -> (r: i32)
    requires
        score > i32::MIN,
    ensures
        r == (if side == Side::DEFENDERS {
            score as int
        } else {
            -score
        }),
{
    match side {
        Side::DEFENDERS => score,
        Side::ATTACKERS => -score,
    }
}

/// How many positions below `k` on a line a piece on `pos` slides to.
pub open spec fn slide_count(occ: u16, pos: int, n: int, k: int) -> int
    decreases k,
{
    if k <= 0 {
        0
    } else {
        slide_count(occ, pos, n, k - 1) + if slide_reaches(occ, pos, k - 1, n) {
            1int
        } else {
            0int
        }
    }
}

proof fn lemma_count_bits_slide(m: u16, pos: int, occ: u16, n: int, k: int)
    requires
        line_mask_ok(m, pos, occ, n),
        0 <= k <= 16,
    ensures
        count_bits16(m, k) == slide_count(occ, pos, n, k),
    decreases k,
{
    if k > 0 {
        lemma_count_bits_slide(m, pos, occ, n, k - 1);
        assert(bit16(m, k - 1) <==> slide_reaches(occ, pos, k - 1, n));
    }
}


/// How many squares a piece on `pos` slides to along a line with occupancy `occ`.
pub fn line_mobility(board: &Board, pos: usize, occ: u16) -> (c: u8)
    requires
        board.wf(),
        pos < board.size(),
        fits16(occ, board.size()),
    ensures
        c == slide_count(occ, pos as int, board.size(), board.size()),
{
    let n = board.board_size();
    proof {
        crate::board::utils::lemma_small_board(n as int);
        lemma_fits16_bound(occ, n as int);
        let t = board.precomputed.line_moves@;
        assert(line_mask_ok(t[pos as int]@[occ as int], pos as int, occ, n as int));
        lemma_count_bits_slide(t[pos as int]@[occ as int], pos as int, occ, n as int, n as int);
    }
    board.precomputed.possible_moves_count[pos][occ as usize]
}


/// The score of a defender (or, counted twice, of the king) that can slide
/// to `k` squares, for `k` up to 20.
pub open spec fn spec_defenders_mobility_score(k: int) -> int {
    if k <= 0 { -20 } else if k == 1 { -15 } else if k == 2 { -10 } else if k == 3 { 0 } else if k == 4 { 7 }
    else if k == 5 { 11 } else if k == 6 { 16 } else if k == 7 { 20 } else if k == 8 { 24 } else if k == 9 { 26 }
    else if k == 10 { 27 } else if k == 11 { 28 } else if k == 12 { 30 } else if k == 13 { 33 } else if k == 14 { 37 }
    else if k == 15 { 41 } else if k == 16 { 44 } else if k == 17 { 46 } else if k == 18 { 48 } else if k == 19 { 50 }
    else { 52 }
}

fn defenders_mobility_score(k: usize) -> (r: i32)
    ensures
        r == spec_defenders_mobility_score(k as int),
{
    match k {
        0 => -20,
        1 => -15,
        2 => -10,
        3 => 0,
        4 => 7,
        5 => 11,
        6 => 16,
        7 => 20,
        8 => 24,
        9 => 26,
        10 => 27,
        11 => 28,
        12 => 30,
        13 => 33,
        14 => 37,
        15 => 41,
        16 => 44,
        17 => 46,
        18 => 48,
        19 => 50,
        _ => 52,
    }
}

/// How many squares the piece on `sq` can slide to along its row and column.
pub open spec fn moves_at(b: &Board, sq: int) -> int {
    let n = b.size();
    slide_count(b.row_occ@[row_of(sq, n)], col_of(sq, n), n, n) + slide_count(
        b.col_occ@[col_of(sq, n)],
        row_of(sq, n),
        n,
        n,
    )
}

pub open spec fn capped_moves(b: &Board, sq: int) -> int {
    if moves_at(b, sq) > 20 {
        20
    } else {
        moves_at(b, sq)
    }
}

/// The mobility scores of the first `k` listed defenders.
pub open spec fn defenders_mobility_upto(b: &Board, k: int) -> int
    decreases k,
{
    if k <= 0 {
        0
    } else {
        defenders_mobility_upto(b, k - 1) + spec_defenders_mobility_score(capped_moves(b, b.defenders@[k - 1] as int))
    }
}

/// How many squares the piece on `sq` can slide to along its row and column.
pub fn possible_moves_count(board: &Board, sq: Square) -> (c: usize)
    requires
        board.wf(),
        sq < board.sqs(),
    ensures
        c == moves_at(board, sq as int),
{
    let n = board.board_size();
    proof {
        crate::board::utils::lemma_square_parts(sq as int, n as int);
    }
    let row = board.precomputed.row[sq];
    let col = board.precomputed.col[sq];
    let horizontal = line_mobility(board, col, board.row_occ[row]);
    let vertical = line_mobility(board, row, board.col_occ[col]);
    horizontal as usize + vertical as usize
}

/// The defenders' mobility: the score of each listed defender's sliding
/// range, and twice that of the king's.
pub fn evaluate_defenders_mobility(board: &Board, king_sq: Square) -> (r: i32)
    requires
        board.wf(),
        king_sq < board.sqs(),
    ensures
        r == defenders_mobility_upto(board, board.defenders_count as int) + 2 * spec_defenders_mobility_score(
            capped_moves(board, king_sq as int),
        ),
{
    let limit: usize = 20;
    let mut result: i32 = 0;
    let count = board.defenders_count as usize;
    let mut idx: usize = 0;
    while idx < count
        invariant
            board.wf(),
            count == board.defenders_count,
            idx <= count,
            count <= 121,
            limit == 20,
            result == defenders_mobility_upto(board, idx as int),
            -20 * idx <= result <= 52 * idx,
        decreases count - idx,
    {
        let m = possible_moves_count(board, board.defenders[idx]);
        let m = if m < limit {
            m
        } else {
            limit
        };
        proof {
            assert(m == capped_moves(board, board.defenders@[idx as int] as int));
            assert(-20 <= spec_defenders_mobility_score(m as int) <= 52);
        }
        result = result + defenders_mobility_score(m);
        proof {
            assert(result == defenders_mobility_upto(board, idx + 1));
        }
        idx += 1;
    }
    let km = possible_moves_count(board, king_sq);
    let km = if km < limit {
        km
    } else {
        limit
    };
    result + defenders_mobility_score(km) * 2
}

/// How many squares the king can slide to along its row and its column,
/// counting the throne and the corners; zero when there is no king.
pub fn evaluate_king_mobility(board: &Board) -> (r: i32)
    requires
        board.wf(),
    ensures
        board.king_sq == HOLE ==> r == 0,
        board.king_sq != HOLE ==> r == slide_count(
            board.row_occ@[row_of(board.king_sq as int, board.size())],
            col_of(board.king_sq as int, board.size()),
            board.size(),
            board.size(),
        ) + slide_count(
            board.col_occ@[col_of(board.king_sq as int, board.size())],
            row_of(board.king_sq as int, board.size()),
            board.size(),
            board.size(),
        ),
{
    if board.king_sq < 0 {
        return 0;
    }
    let n = board.board_size();
    let king = board.king_sq as usize;
    proof {
        crate::board::utils::lemma_small_board(n as int);
        crate::board::utils::lemma_square_parts(king as int, n as int);
    }
    let row = board.precomputed.row[king];
    let col = board.precomputed.col[king];
    let ro = board.row_occ[row];
    let co = board.col_occ[col];
    proof {
        lemma_fits16_bound(ro, n as int);
        lemma_fits16_bound(co, n as int);
        let t = board.precomputed.line_moves@;
        assert(line_mask_ok(t[col as int]@[ro as int], col as int, ro, n as int));
        assert(line_mask_ok(t[row as int]@[co as int], row as int, co, n as int));
        lemma_count_bits_slide(t[col as int]@[ro as int], col as int, ro, n as int, n as int);
        lemma_count_bits_slide(t[row as int]@[co as int], row as int, co, n as int, n as int);
    }
    let horizontal = board.precomputed.possible_moves_count[col][ro as usize];
    let vertical = board.precomputed.possible_moves_count[row][co as usize];
    horizontal as i32 + vertical as i32
}

} // verus!
