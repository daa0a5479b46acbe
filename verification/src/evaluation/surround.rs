use vstd::prelude::*;
use crate::board::Board;
use crate::board::constants::HOLE;
use crate::board::precompute::Precomputed;
use crate::board::types::{Piece, Square};
use crate::board::utils::{lemma_all_neighbors_on_board, lemma_vh_neighbors, spec_all_neighbors, spec_is_edge, spec_throne, spec_vh_neighbors, usizes};
use crate::utils::bfs::{bfs, neighbors_ok, spec_reachable};

verus! {

/// The squares a defender may cross: every square without an attacker.
pub open spec fn pass_mask(cells: Seq<Piece>) -> Seq<bool> {
    cells.map_values(|p: Piece| p != Piece::ATTACKER)
}

/// Where the defenders stand: the king first, then the listed defenders.
pub open spec fn defender_starts(b: &Board) -> Seq<Square> {
    (if b.king_sq != HOLE {
        seq![b.king_sq as usize]
    } else {
        Seq::<Square>::empty()
    }) + b.defenders@.subrange(0, b.defenders_count as int)
}

/// How many of the listed squares hold an attacker.
pub open spec fn attackers_among(cells: Seq<Piece>, sqs: Seq<int>) -> int
    decreases sqs.len(),
{
    if sqs.len() == 0 {
        0
    } else {
        attackers_among(cells, sqs.drop_last()) + if cells[sqs.last()] == Piece::ATTACKER {
            1int
        } else {
            0int
        }
    }
}

/// Whether the last move can have closed a ring: at the start of a game, or
/// after an attacker's move that captured or that lands next to two attackers.
pub open spec fn spec_calculate_needed(b: &Board) -> bool {
    if b.last_move_to == HOLE {
        true
    } else if b.board@[b.last_move_to as int] != Piece::ATTACKER {
        false
    } else if b.was_capture {
        true
    } else {
        attackers_among(b.board@, spec_all_neighbors(b.last_move_to as int, b.size())) >= 2
    }
}

/// No defender can reach the edge of the board through squares free of attackers.
pub open spec fn spec_defenders_enclosed(b: &Board) -> bool {
    !exists|s: int|
        0 <= s < b.sqs() && spec_is_edge(s, b.size()) && #[trigger] spec_reachable(
            pass_mask(b.board@),
            b.precomputed.vertical_horizontal_neighbors@,
            defender_starts(b),
            s,
        )
}

pub proof fn lemma_vh_table_ok(p: &Precomputed, n: int)
    requires
        p.wf(n),
    ensures
        neighbors_ok(p.vertical_horizontal_neighbors@, n * n),
{
    assert forall|s: int, k: int|
        0 <= s < n * n && 0 <= k < p.vertical_horizontal_neighbors@[s]@.len() implies #[trigger] p.vertical_horizontal_neighbors@[s]@[k]
        < n * n by {
        lemma_vh_neighbors(s, n);
        assert(usizes(p.vertical_horizontal_neighbors@[s]@)[k] == spec_vh_neighbors(s, n)[k]);
    }
}

/// The mask of squares without an attacker.
pub fn passable_mask(board: &Board) -> (m: Vec<bool>)
    requires
        board.wf(),
    ensures
        m@ == pass_mask(board.board@),
{
    let n = board.board.len();
    let mut m: Vec<bool> = Vec::new();
    let mut i: usize = 0;
    while i < n
        invariant
            n == board.board@.len(),
            i <= n,
            m@ == pass_mask(board.board@.subrange(0, i as int)),
        decreases n - i,
    {
        m.push(board.board[i] != Piece::ATTACKER);
        proof {
            assert(pass_mask(board.board@.subrange(0, i + 1)) =~= pass_mask(board.board@.subrange(0, i as int)).push(
                board.board@[i as int] != Piece::ATTACKER,
            ));
        }
        i += 1;
    }
    proof {
        assert(board.board@.subrange(0, n as int) =~= board.board@);
    }
    m
}

/// The squares of the king and the defenders, king first.
pub fn defender_squares(board: &Board) -> (v: Vec<Square>)
    requires
        board.wf(),
    ensures
        v@ == defender_starts(board),
        forall|k: int| 0 <= k < v@.len() ==> #[trigger] v@[k] < board.sqs(),
{
    let mut v: Vec<Square> = Vec::new();
    if board.king_sq != HOLE {
        v.push(board.king_sq as Square);
    }
    let ghost head = v@;
    let count = board.defenders_count as usize;
    let mut i: usize = 0;
    while i < count
        invariant
            board.wf(),
            count == board.defenders_count,
            i <= count,
            head == (if board.king_sq != HOLE {
                seq![board.king_sq as usize]
            } else {
                Seq::<Square>::empty()
            }),
            v@ == head + board.defenders@.subrange(0, i as int),
            forall|k: int| 0 <= k < v@.len() ==> #[trigger] v@[k] < board.sqs(),
        decreases count - i,
    {
        v.push(board.defenders[i]);
        proof {
            assert(board.defenders@.subrange(0, i + 1) =~= board.defenders@.subrange(0, i as int).push(board.defenders@[i as int]));
        }
        i += 1;
    }
    v
}

fn is_calculate_needed(board: &Board) -> (b: bool)
    requires
        board.wf(),
    ensures
        b == spec_calculate_needed(board),
{
    if board.last_move_to == HOLE {
        return true;
    }
    let last = board.last_move_to as usize;
    if board.board[last] != Piece::ATTACKER {
        return false;
    }
    if board.was_capture {
        return true;
    }
    let n = board.board_size();
    let all = &board.precomputed.all_neighbors[last];
    let ghost sq = usizes(all@);
    proof {
        lemma_all_neighbors_on_board(last as int, n as int);
        assert(sq == spec_all_neighbors(last as int, n as int));
    }
    let mut count: usize = 0;
    let mut i: usize = 0;
    while i < all.len()
        invariant
            board.wf(),
            i <= all@.len(),
            sq == usizes(all@),
            sq.len() <= 8,
            forall|k: int| 0 <= k < sq.len() ==> 0 <= #[trigger] sq[k] < board.sqs(),
            count == attackers_among(board.board@, sq.subrange(0, i as int)),
            count <= i,
        decreases all@.len() - i,
    {
        let s = all[i];
        proof {
            assert(sq.subrange(0, i + 1).drop_last() =~= sq.subrange(0, i as int));
            assert(sq[i as int] == s);
        }
        if board.board[s] == Piece::ATTACKER {
            count += 1;
        }
        i += 1;
    }
    proof {
        assert(sq.subrange(0, sq.len() as int) =~= sq);
    }
    count >= 2
}

/// Whether the defenders are shut in: the last move can have closed a ring,
/// and no defender reaches the edge through squares free of attackers.
pub fn defenders_is_surrounded(board: &Board) -> (b: bool)
    requires
        board.wf(),
    ensures
        b == (spec_calculate_needed(board) && spec_defenders_enclosed(board)),
{
    if !is_calculate_needed(board) {
        return false;
    }
    let n = board.board_size();
    let mask = passable_mask(board);
    let starts = defender_squares(board);
    proof {
        lemma_vh_table_ok(&board.precomputed, n as int);
    }
    let inner = bfs(&mask, &board.precomputed.vertical_horizontal_neighbors, &starts);
    let mut i: usize = 0;
    while i < inner.len()
        invariant
            board.wf(),
            n == board.size(),
            inner@.len() == n * n,
            mask@ == pass_mask(board.board@),
            starts@ == defender_starts(board),
            forall|s: int|
                0 <= s < inner@.len() ==> (#[trigger] inner@[s] <==> spec_reachable(
                    mask@,
                    board.precomputed.vertical_horizontal_neighbors@,
                    starts@,
                    s,
                )),
            i <= inner@.len(),
            forall|s: int| 0 <= s < i ==> !(#[trigger] inner@[s] && spec_is_edge(s, n as int)),
        decreases inner@.len() - i,
    {
        if inner[i] && crate::board::utils::is_edge_square(i, n) {
            proof {
                assert(spec_reachable(mask@, board.precomputed.vertical_horizontal_neighbors@, starts@, i as int));
            }
            return false;
        }
        i += 1;
    }
    proof {
        assert forall|s: int|
            0 <= s < board.sqs() && spec_is_edge(s, board.size()) implies !#[trigger] spec_reachable(
            pass_mask(board.board@),
            board.precomputed.vertical_horizontal_neighbors@,
            defender_starts(board),
            s,
        ) by {
            assert(!(inner@[s] && spec_is_edge(s, n as int)));
        }
    }
    true
}

/// Whether the king is shut in on all four sides by attackers or the throne.
pub fn king_is_surrounded(board: &Board) -> (b: bool)
    requires
        board.wf(),
        board.king_sq != HOLE,
    ensures
        b == (attackers_or_throne(board.board@, board.size(), spec_vh_neighbors(board.king_sq as int, board.size()))
            >= 4),
{
    let n = board.board_size();
    let king = board.king_sq as usize;
    let vh = &board.precomputed.vertical_horizontal_neighbors[king];
    let ghost sq = usizes(vh@);
    proof {
        lemma_vh_neighbors(king as int, n as int);
        assert(sq == spec_vh_neighbors(king as int, n as int));
    }
    let throne = board.precomputed.throne_sq;
    let mut count: usize = 0;
    let mut i: usize = 0;
    while i < vh.len()
        invariant
            board.wf(),
            n == board.size(),
            throne == spec_throne(n as int),
            i <= vh@.len(),
            sq == usizes(vh@),
            sq.len() <= 4,
            forall|k: int| 0 <= k < sq.len() ==> 0 <= #[trigger] sq[k] < board.sqs(),
            count == attackers_or_throne(board.board@, n as int, sq.subrange(0, i as int)),
            count <= i,
        decreases vh@.len() - i,
    {
        let s = vh[i];
        proof {
            assert(sq.subrange(0, i + 1).drop_last() =~= sq.subrange(0, i as int));
            assert(sq[i as int] == s);
        }
        if s == throne || board.board[s] == Piece::ATTACKER {
            count += 1;
        }
        i += 1;
    }
    proof {
        assert(sq.subrange(0, sq.len() as int) =~= sq);
    }
    count >= 4
}

/// How many of the listed squares are the throne or hold an attacker.
pub open spec fn attackers_or_throne(cells: Seq<Piece>, n: int, sqs: Seq<int>) -> int
    decreases sqs.len(),
{
    if sqs.len() == 0 {
        0
    } else {
        attackers_or_throne(cells, n, sqs.drop_last()) + if sqs.last() == spec_throne(n) || cells[sqs.last()]
            == Piece::ATTACKER {
            1int
        } else {
            0int
        }
    }
}

} // verus!
