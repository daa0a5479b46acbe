use vstd::prelude::*;
use crate::board::types::Square;
use crate::board::utils::{col_of, row_of, square_at};
use crate::moves::mv::Move;

verus! {

/// The four slide directions of the policy encoding.
pub const POLICY_DIRECTIONS: u16 = 4;

/// Input planes of the network.
pub const NUM_PLANES: usize = 11;

/// Values in one network input sample for a board of the given size.
pub fn get_sample_size(board_size: usize) -> (s: usize)
    requires
        board_size <= 16,
    ensures
        s == NUM_PLANES * board_size * board_size,
{
    proof {
        assert(board_size * board_size <= 256) by (nonlinear_arith)
            requires
                board_size <= 16,
        ;
        assert(NUM_PLANES * board_size * board_size == NUM_PLANES * (board_size * board_size)) by (nonlinear_arith);
    }
    NUM_PLANES * board_size * board_size
}

/// Slots of the policy head for a board of the given size: every origin,
/// four directions, every distance up to the board's side less one.
pub fn get_policy_size(board_size: usize) -> (s: usize)
    requires
        2 <= board_size <= 16,
    ensures
        s == board_size * board_size * 4 * (board_size - 1),
{
    proof {
        assert(board_size * board_size * 4 * (board_size - 1) <= 16 * 16 * 4 * 15) by (nonlinear_arith)
            requires
                2 <= board_size <= 16,
        ;
        assert(board_size * board_size <= 256) by (nonlinear_arith)
            requires
                board_size <= 16,
        ;
        assert(board_size * board_size * 4 <= 1024);
        assert((board_size * board_size * 4) * (board_size - 1) <= 1024 * 15) by (nonlinear_arith)
            requires
                board_size * board_size * 4 <= 1024,
                board_size - 1 <= 15,
        ;
    }
    board_size * board_size * 4 * (board_size - 1)
}

/// A slide on an `n`x`n` board: both squares on the board, on one row or
/// one column, and apart.
pub open spec fn is_slide(from: int, to: int, n: int) -> bool {
    &&& 0 <= from < n * n
    &&& 0 <= to < n * n
    &&& from != to
    &&& (row_of(from, n) == row_of(to, n) || col_of(from, n) == col_of(to, n))
}

/// 0 up (towards row 0), 1 down, 2 left, 3 right.
pub open spec fn spec_direction(from: int, to: int, n: int) -> int {
    if row_of(from, n) == row_of(to, n) {
        if col_of(to, n) > col_of(from, n) {
            3
        } else {
            2
        }
    } else if row_of(to, n) > row_of(from, n) {
        1
    } else {
        0
    }
}

pub open spec fn abs(x: int) -> int {
    if x < 0 {
        -x
    } else {
        x
    }
}

pub open spec fn spec_distance(from: int, to: int, n: int) -> int {
    abs(row_of(from, n) - row_of(to, n)) + abs(col_of(from, n) - col_of(to, n))
}

/// The policy slot of a slide: origin, then direction, then distance.
pub open spec fn spec_policy_index(from: int, to: int, n: int) -> int {
    from * (4 * (n - 1)) + spec_direction(from, to, n) * (n - 1) + (spec_distance(from, to, n) - 1)
}

/// The slide a policy slot stands for, if it stays on the board.
pub open spec fn spec_policy_move(index: int, n: int) -> Option<(int, int)> {
    let maxd = n - 1;
    let from = index / (4 * maxd);
    let direction = (index / maxd) % 4;
    let distance = index % maxd + 1;
    let fr = row_of(from, n);
    let fc = col_of(from, n);
    let (tr, tc) = if direction == 0 {
        (fr - distance, fc)
    } else if direction == 1 {
        (fr + distance, fc)
    } else if direction == 2 {
        (fr, fc - distance)
    } else {
        (fr, fc + distance)
    };
    if tr < 0 || tc < 0 || tr >= n || tc >= n {
        None
    } else {
        Some((from, square_at(tr, tc, n)))
    }
}

/// The policy slot of a slide on a board of the given size.
pub fn move_to_policy_index(mv: Move, board_size: usize) -> (r: u16)
    requires
        3 <= board_size <= 11,
        is_slide(mv.spec_from(), mv.spec_to(), board_size as int),
    ensures
        r == spec_policy_index(mv.spec_from(), mv.spec_to(), board_size as int),
{
    let n = board_size;
    let from = mv.from();
    let to = mv.to();
    let from_row = from / n;
    let to_row = to / n;
    let from_col = from % n;
    let to_col = to % n;
    let direction: u16 = if from_row == to_row {
        if to_col > from_col {
            3
        } else {
            2
        }
    } else if to_row > from_row {
        1
    } else {
        0
    };
    let dr = if from_row > to_row { from_row - to_row } else { to_row - from_row };
    let dc = if from_col > to_col { from_col - to_col } else { to_col - from_col };
    proof {
        crate::board::utils::lemma_square_parts(from as int, n as int);
        crate::board::utils::lemma_square_parts(to as int, n as int);
        if from_row == to_row && from_col == to_col {
            crate::board::utils::lemma_square_unique(from as int, to as int, n as int);
        }
        assert(n * n <= 121) by (nonlinear_arith)
            requires
                n <= 11,
        ;
    }
    let distance = dr + dc;
    let max_distance = (n - 1) as u16;
    let from16 = from as u16;
    let span: u16 = POLICY_DIRECTIONS * max_distance;
    proof {
        assert(from16 * span <= 120 * 40) by (nonlinear_arith)
            requires
                from16 <= 120,
                span <= 40,
        ;
        assert(direction * max_distance <= 30) by (nonlinear_arith)
            requires
                direction <= 3,
                max_distance <= 10,
        ;
    }
    let d = distance as u16;
    let base = from16 * span;
    let mid = direction * max_distance;
    base + mid + (d - 1)
}

/// The slide a policy slot stands for on a board of the given size, or
/// `None` where it would leave the board.
pub fn policy_index_to_move(index: u16, board_size: usize) -> (r: Option<Move>)
    requires
        3 <= board_size <= 11,
        index < 121 * 4 * 10,
    ensures
        match spec_policy_move(index as int, board_size as int) {
            Some((f, t)) => r is Some && r->Some_0.spec_from() == f && r->Some_0.spec_to() == t,
            None => r is None,
        },
{
    let n = board_size;
    let max_distance = (n - 1) as u16;
    let span: u16 = POLICY_DIRECTIONS * max_distance;
    let from = index / span;
    proof {
        assert(from <= 605) by (nonlinear_arith)
            requires
                span >= 8,
                index < 4840,
                from == index / span,
        ;
    }
    let direction = (index / max_distance) % POLICY_DIRECTIONS;
    let distance = (index % max_distance) + 1;
    let from_row = (from as usize) / n;
    let from_col = (from as usize) % n;
    let (to_row, to_col): (i32, i32) = if direction == 0 {
        (from_row as i32 - distance as i32, from_col as i32)
    } else if direction == 1 {
        (from_row as i32 + distance as i32, from_col as i32)
    } else if direction == 2 {
        (from_row as i32, from_col as i32 - distance as i32)
    } else {
        (from_row as i32, from_col as i32 + distance as i32)
    };
    if to_row < 0 || to_col < 0 {
        return None;
    }
    let size = n as i32;
    if to_row >= size || to_col >= size {
        return None;
    }
    let tr = to_row as usize;
    let tc = to_col as usize;
    proof {
        crate::board::utils::lemma_square_compose(tr as int, tc as int, n as int);
        assert(tr * n + tc < 121) by (nonlinear_arith)
            requires
                tr < n,
                tc < n,
                n <= 11,
        ;
    }
    let to_square = tr * n + tc;
    Some(Move::new(from as Square, to_square as Square))
}


/// Decoding the policy slot of a slide gives the slide back.
pub proof fn lemma_policy_round_trip(from: int, to: int, n: int)
    requires
        3 <= n <= 11,
        is_slide(from, to, n),
    ensures
        0 <= spec_policy_index(from, to, n) < n * n * 4 * (n - 1),
        spec_policy_move(spec_policy_index(from, to, n), n) == Some((from, to)),
{
    let maxd = n - 1;
    let dir = spec_direction(from, to, n);
    let dist = spec_distance(from, to, n);
    crate::board::utils::lemma_square_parts(from, n);
    crate::board::utils::lemma_square_parts(to, n);
    if row_of(from, n) == row_of(to, n) {
        if col_of(from, n) == col_of(to, n) {
            crate::board::utils::lemma_square_unique(from, to, n);
        }
    }
    assert(1 <= dist <= maxd);
    let idx = spec_policy_index(from, to, n);
    let low = dir * maxd + (dist - 1);
    assert(0 <= low < 4 * maxd) by (nonlinear_arith)
        requires
            0 <= dir < 4,
            1 <= dist <= maxd,
            low == dir * maxd + (dist - 1),
    ;
    vstd::arithmetic::div_mod::lemma_fundamental_div_mod_converse(idx, 4 * maxd, from, low);
    assert(idx == (from * 4 + dir) * maxd + (dist - 1)) by (nonlinear_arith)
        requires
            idx == from * (4 * maxd) + dir * maxd + (dist - 1),
    ;
    vstd::arithmetic::div_mod::lemma_fundamental_div_mod_converse(idx, maxd, from * 4 + dir, dist - 1);
    vstd::arithmetic::div_mod::lemma_fundamental_div_mod_converse(from * 4 + dir, 4, from, dir);
    assert(idx < n * n * 4 * maxd) by (nonlinear_arith)
        requires
            idx == from * (4 * maxd) + low,
            0 <= low < 4 * maxd,
            from < n * n,
            from >= 0,
    ;
    let tr = row_of(to, n);
    let tc = col_of(to, n);
    crate::board::utils::lemma_square_compose(tr, tc, n);
    assert(square_at(tr, tc, n) == to);
}

} // verus!
