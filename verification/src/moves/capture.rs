use vstd::prelude::*;
use crate::board::Board;
use crate::board::rules::{spec_is_corners_hostile, spec_is_king_strong, RulesEnum};
use crate::board::types::{spec_side_of, Piece, Square};
use crate::board::utils::{
    get_side_by_piece, is_corner, spec_bottom, spec_left, spec_right, spec_throne, spec_top,
    spec_vh_neighbors, square_at, usizes,
};

verus! {

/// Whether the square `enemy` threatens the piece on `target`: an enemy piece
/// does, and so does the empty throne, and an empty corner where corners are
/// hostile.
pub open spec fn spec_is_threat(cells: Seq<Piece>, rules: RulesEnum, n: int, target: int, enemy: int) -> bool {
    if cells[enemy] == Piece::EMPTY {
        (spec_is_corners_hostile(rules) && is_corner(enemy, n)) || enemy == spec_throne(n)
    } else {
        spec_side_of(cells[target]) != spec_side_of(cells[enemy])
    }
}

/// Whether the piece on `target` is taken between `e1` and `e2`. The king is
/// never taken this way; its capture has rules of its own.
pub open spec fn spec_sandwiched(cells: Seq<Piece>, rules: RulesEnum, n: int, target: int, e1: int, e2: int) -> bool {
    &&& cells[target] != Piece::EMPTY
    &&& cells[target] != Piece::KING
    &&& spec_is_threat(cells, rules, n, target, e1)
    &&& spec_is_threat(cells, rules, n, target, e2)
}

pub fn is_potential_thread(board: &Board, target_sq: Square, enemy_sq: Square) -> (b: bool)
    requires
        board.wf(),
        target_sq < board.sqs(),
        enemy_sq < board.sqs(),
    ensures
        b == spec_is_threat(board.board@, board.rules, board.size(), target_sq as int, enemy_sq as int),
{
    let is_hostile_corners = board.rules.is_corners_hostile();
    let p = &board.precomputed;

    if board.board[enemy_sq] == Piece::EMPTY {
        let is_corner_sq = enemy_sq == p.corners_sq[0] || enemy_sq == p.corners_sq[1]
            || enemy_sq == p.corners_sq[2] || enemy_sq == p.corners_sq[3];
        return (is_hostile_corners && is_corner_sq) || enemy_sq == p.throne_sq;
    }

    let target_side = get_side_by_piece(board.board[target_sq]);
    let enemy_side = get_side_by_piece(board.board[enemy_sq]);

    match (target_side, enemy_side) {
        (Ok(t), Ok(e)) => t != e,
        (Err(_), Err(_)) => false,
        _ => true,
    }
}

pub fn is_capture_possible(
    board: &Board,
    target_sq: Square,
    enemy_sq_1: Square,
    enemy_sq_2: Square,
) -> (b: bool)
    requires
        board.wf(),
        target_sq < board.sqs(),
        enemy_sq_1 < board.sqs(),
        enemy_sq_2 < board.sqs(),
    ensures
        b == spec_sandwiched(board.board@, board.rules, board.size(), target_sq as int, enemy_sq_1 as int, enemy_sq_2 as int),
{
    if board.board[target_sq] == Piece::KING || board.board[target_sq] == Piece::EMPTY {
        return false;
    }

    let is_threat_1 = is_potential_thread(board, target_sq, enemy_sq_1);
    let is_threat_2 = is_potential_thread(board, target_sq, enemy_sq_2);

    is_threat_1 && is_threat_2
}

/// Every orthogonal neighbour of the king is hostile to it: an attacker, or the throne.
pub open spec fn spec_all_sides_hostile(cells: Seq<Piece>, n: int, king: int) -> bool {
    let vh = spec_vh_neighbors(king, n);
    &&& vh.len() == 4
    &&& forall|i: int|
        0 <= i < 4 ==> #[trigger] vh[i] == spec_throne(n) || cells[vh[i]] == Piece::ATTACKER
}

pub open spec fn is_attacker_at(cells: Seq<Piece>, o: Option<int>) -> bool {
    match o {
        Some(s) => cells[s] == Piece::ATTACKER,
        None => false,
    }
}

/// Whether the king on `king` is captured. A strong king needs four hostile
/// sides. A weak king on or beside the throne needs the same; elsewhere two
/// attackers on one axis suffice.
pub open spec fn spec_king_surrounded(cells: Seq<Piece>, rules: RulesEnum, n: int, king: int) -> bool {
    let vh = spec_vh_neighbors(king, n);
    if spec_is_king_strong(rules) || king == spec_throne(n) || vh.contains(spec_throne(n)) {
        spec_all_sides_hostile(cells, n, king)
    } else {
        (is_attacker_at(cells, spec_left(king, n)) && is_attacker_at(cells, spec_right(king, n)))
            || (is_attacker_at(cells, spec_top(king, n)) && is_attacker_at(cells, spec_bottom(king, n)))
    }
}

fn is_attacker_opt(board: &Board, o: Option<Square>) -> (b: bool)
    requires
        board.wf(),
        o matches Some(s) ==> s < board.sqs(),
    ensures
        b == is_attacker_at(board.board@, crate::board::utils::opt_to_int(o)),
{
    match o {
        Some(sq) => board.board[sq] == Piece::ATTACKER,
        None => false,
    }
}

pub fn king_is_surrounded(board: &Board) -> (b: bool)
    requires
        board.wf(),
        board.king_sq != crate::board::constants::HOLE,
    ensures
        b == spec_king_surrounded(board.board@, board.rules, board.size(), board.king_sq as int),
{
    let king_sq = board.king_sq as usize;
    let p = &board.precomputed;
    let ghost n = board.size();
    let vh = &p.vertical_horizontal_neighbors[king_sq];
    proof {
        crate::board::utils::lemma_neighbors_on_board(king_sq as int, n);
        crate::board::utils::lemma_small_board(n);
        crate::board::utils::lemma_vh_neighbors(king_sq as int, n);
        assert(usizes(vh@) == spec_vh_neighbors(king_sq as int, n));
        assert forall|i: int| 0 <= i < vh@.len() implies #[trigger] vh@[i] < board.sqs() by {
            assert(usizes(vh@)[i] == vh@[i] as int);
        }
    }

    let mut near_throne = false;
    let mut hostile: usize = 0;
    let mut i: usize = 0;
    while i < vh.len()
        invariant
            board.wf(),
            p == &board.precomputed,
            usizes(vh@) == spec_vh_neighbors(king_sq as int, n),
            n == board.size(),
            forall|k: int| 0 <= k < vh@.len() ==> #[trigger] vh@[k] < board.sqs(),
            i <= vh@.len(),
            near_throne == exists|k: int| 0 <= k < i && #[trigger] vh@[k] == spec_throne(n),
            hostile <= i,
            (hostile == i) == forall|k: int|
                0 <= k < i ==> #[trigger] vh@[k] == spec_throne(n) || board.board@[vh@[k] as int]
                    == Piece::ATTACKER,
        decreases vh@.len() - i,
    {
        let sq = vh[i];
        if sq == p.throne_sq {
            near_throne = true;
        }
        if sq == p.throne_sq || board.board[sq] == Piece::ATTACKER {
            hostile += 1;
        }
        i += 1;
    }
    proof {
        let vs = spec_vh_neighbors(king_sq as int, n);
        assert(vs.len() == vh@.len());
        assert forall|k: int| 0 <= k < vs.len() implies vs[k] == vh@[k] as int by {
            assert(usizes(vh@)[k] == vh@[k] as int);
        }
        assert(near_throne == vs.contains(spec_throne(n))) by {
            if near_throne {
                let k = choose|k: int| 0 <= k < vh@.len() && #[trigger] vh@[k] == spec_throne(n);
                assert(vs[k] == spec_throne(n));
            }
            if vs.contains(spec_throne(n)) {
                let k = choose|k: int| 0 <= k < vs.len() && vs[k] == spec_throne(n);
                assert(vh@[k] == spec_throne(n));
            }
        }
    }

    if board.rules.is_king_strong() || king_sq == p.throne_sq || near_throne {
        proof {
            let vs = spec_vh_neighbors(king_sq as int, n);
            if hostile >= 4 {
                assert(vh@.len() == 4);
                assert forall|k: int| 0 <= k < 4 implies #[trigger] vs[k] == spec_throne(n)
                    || board.board@[vs[k]] == Piece::ATTACKER by {
                    assert(vs[k] == vh@[k] as int);
                }
            }
            if spec_all_sides_hostile(board.board@, n, king_sq as int) {
                assert forall|k: int| 0 <= k < i implies #[trigger] vh@[k] == spec_throne(n)
                    || board.board@[vh@[k] as int] == Piece::ATTACKER by {
                    assert(vs[k] == vh@[k] as int);
                }
            }
        }
        hostile >= 4
    } else {
        let left_right = is_attacker_opt(board, p.left_neighbor[king_sq])
            && is_attacker_opt(board, p.right_neighbor[king_sq]);
        let top_bottom = is_attacker_opt(board, p.top_neighbor[king_sq])
            && is_attacker_opt(board, p.bottom_neighbor[king_sq]);
        left_right || top_bottom
    }
}

} // verus!
