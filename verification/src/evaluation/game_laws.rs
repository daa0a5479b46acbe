use vstd::prelude::*;
use crate::board::Board;
use crate::board::constants::HOLE;
use crate::board::rules::{spec_has_fort_win, RulesEnum};
use crate::board::types::{Piece, Side, Square};
use crate::board::utils::{spec_all_neighbors, spec_is_edge, spec_vh_neighbors};
use crate::evaluation::fort::{fort_candidate, fort_holds, guards_among, spec_fort_calc_needed};
use crate::evaluation::surround::{attackers_among, spec_calculate_needed, spec_defenders_enclosed};
use crate::evaluation::terminal::{
    defenders_reach_corner, game_result, is_free, king_escaped, max_free_run, run_stats, spec_edges, spec_get_terminal,
    spec_threefold, spec_train_terminal, TerminalType,
};

verus! {

// ---------------------------------------------------------------------------
// Who wins a finished game.
// ---------------------------------------------------------------------------

/// The defenders win exactly when the king is on the board and either has
/// escaped, or holds an unbreakable edge fort (where the variant counts
/// forts) without the position having come a third time or the defenders
/// being shut in. The attackers win exactly when the king is gone, or it has
/// not escaped and the position came a third time or the defenders are shut
/// in. Otherwise the game goes on.
pub proof fn lemma_game_winner(b: Board)
    requires
        b.wf(),
    ensures
        game_result(b) == Some(Side::DEFENDERS) <==> (b.king_sq != HOLE && (king_escaped(&b) || (!spec_threefold(&b)
            && !(spec_calculate_needed(&b) && spec_defenders_enclosed(&b)) && spec_has_fort_win(b.rules)
            && fort_candidate(b) && fort_holds(b)))),
        game_result(b) == Some(Side::ATTACKERS) <==> (b.king_sq == HOLE || (!king_escaped(&b) && (spec_threefold(&b)
            || (spec_calculate_needed(&b) && spec_defenders_enclosed(&b))))),
        spec_get_terminal(b) == Some(TerminalType::FortCheck) ==> game_result(b) == Some(Side::DEFENDERS),
        spec_get_terminal(b) == Some(TerminalType::KingOnCorner) ==> game_result(b) == Some(Side::DEFENDERS),
        spec_get_terminal(b) == Some(TerminalType::KingCaptured) ==> game_result(b) == Some(Side::ATTACKERS),
        spec_get_terminal(b) == Some(TerminalType::ThreefoldRepetition) ==> game_result(b) == Some(Side::ATTACKERS),
        spec_get_terminal(b) == Some(TerminalType::DefendersSurrounded) ==> game_result(b) == Some(Side::ATTACKERS),
{
}

// ---------------------------------------------------------------------------
// When the enclosure and fort tests run.
// ---------------------------------------------------------------------------

proof fn lemma_attackers_among_one(cells: Seq<Piece>, sqs: Seq<int>, i: int)
    requires
        0 <= i < sqs.len(),
        cells[sqs[i]] == Piece::ATTACKER,
    ensures
        attackers_among(cells, sqs) >= 1,
    decreases sqs.len(),
{
    lemma_attackers_among_nonneg(cells, sqs.drop_last());
    if i < sqs.len() - 1 {
        assert(sqs.drop_last()[i] == sqs[i]);
        lemma_attackers_among_one(cells, sqs.drop_last(), i);
    }
}

proof fn lemma_attackers_among_nonneg(cells: Seq<Piece>, sqs: Seq<int>)
    ensures
        attackers_among(cells, sqs) >= 0,
    decreases sqs.len(),
{
    if sqs.len() > 0 {
        lemma_attackers_among_nonneg(cells, sqs.drop_last());
    }
}

proof fn lemma_attackers_among_two(cells: Seq<Piece>, sqs: Seq<int>, i: int, j: int)
    requires
        0 <= i < j < sqs.len(),
        cells[sqs[i]] == Piece::ATTACKER,
        cells[sqs[j]] == Piece::ATTACKER,
    ensures
        attackers_among(cells, sqs) >= 2,
    decreases sqs.len(),
{
    assert(sqs.drop_last()[i] == sqs[i]);
    if j == sqs.len() - 1 {
        lemma_attackers_among_one(cells, sqs.drop_last(), i);
    } else {
        assert(sqs.drop_last()[j] == sqs[j]);
        lemma_attackers_among_two(cells, sqs.drop_last(), i, j);
    }
}

/// An attacker's move that lands with two attackers among its eight
/// neighbours may have closed a ring, so the enclosure is looked at: the
/// defenders count as shut in exactly when none of them reaches the edge.
pub proof fn lemma_ring_closing_move_is_checked(b: &Board, i: int, j: int)
    requires
        b.wf(),
        b.last_move_to != HOLE,
        b.board@[b.last_move_to as int] == Piece::ATTACKER,
        0 <= i < j < spec_all_neighbors(b.last_move_to as int, b.size()).len(),
        b.board@[spec_all_neighbors(b.last_move_to as int, b.size())[i]] == Piece::ATTACKER,
        b.board@[spec_all_neighbors(b.last_move_to as int, b.size())[j]] == Piece::ATTACKER,
    ensures
        spec_calculate_needed(b),
        (spec_calculate_needed(b) && spec_defenders_enclosed(b)) == spec_defenders_enclosed(b),
{
    if !b.was_capture {
        lemma_attackers_among_two(b.board@, spec_all_neighbors(b.last_move_to as int, b.size()), i, j);
    }
}

/// The guard test of a square: a defender on it, or the board's edge.
pub open spec fn is_guard(cells: Seq<Piece>, n: int, s: int) -> bool {
    cells[s] == Piece::DEFENDER || spec_is_edge(s, n)
}

proof fn lemma_guards_among_nonneg(cells: Seq<Piece>, n: int, sqs: Seq<int>)
    ensures
        guards_among(cells, n, sqs) >= 0,
    decreases sqs.len(),
{
    if sqs.len() > 0 {
        lemma_guards_among_nonneg(cells, n, sqs.drop_last());
    }
}

proof fn lemma_guards_among_one(cells: Seq<Piece>, n: int, sqs: Seq<int>, i: int)
    requires
        0 <= i < sqs.len(),
        is_guard(cells, n, sqs[i]),
    ensures
        guards_among(cells, n, sqs) >= 1,
    decreases sqs.len(),
{
    lemma_guards_among_nonneg(cells, n, sqs.drop_last());
    if i < sqs.len() - 1 {
        assert(sqs.drop_last()[i] == sqs[i]);
        lemma_guards_among_one(cells, n, sqs.drop_last(), i);
    }
}

proof fn lemma_guards_among_two(cells: Seq<Piece>, n: int, sqs: Seq<int>, i: int, j: int)
    requires
        0 <= i < j < sqs.len(),
        is_guard(cells, n, sqs[i]),
        is_guard(cells, n, sqs[j]),
    ensures
        guards_among(cells, n, sqs) >= 2,
    decreases sqs.len(),
{
    assert(sqs.drop_last()[i] == sqs[i]);
    if j == sqs.len() - 1 {
        lemma_guards_among_one(cells, n, sqs.drop_last(), i);
    } else {
        assert(sqs.drop_last()[j] == sqs[j]);
        lemma_guards_among_two(cells, n, sqs.drop_last(), i, j);
    }
}

/// After a defender's move that lands next to two guards (defenders or edge
/// squares among its eight neighbours), or onto the edge next to one, the fort
/// is looked for: the position is a fort candidate exactly when the king is
/// on the board, on its edge, with an empty orthogonal neighbour.
pub proof fn lemma_fort_closing_move_is_checked(b: Board, i: int, j: int)
    requires
        b.wf(),
        b.last_move_to != HOLE,
        b.board@[b.last_move_to as int] == Piece::DEFENDER,
        0 <= i < spec_all_neighbors(b.last_move_to as int, b.size()).len(),
        is_guard(b.board@, b.size(), spec_all_neighbors(b.last_move_to as int, b.size())[i]),
        spec_is_edge(b.last_move_to as int, b.size()) || (i < j < spec_all_neighbors(b.last_move_to as int, b.size()).len()
            && is_guard(b.board@, b.size(), spec_all_neighbors(b.last_move_to as int, b.size())[j])),
    ensures
        spec_fort_calc_needed(&b),
        fort_candidate(b) == (b.king_sq != HOLE && spec_is_edge(b.king_sq as int, b.size()) && exists|k: int|
            0 <= k < spec_vh_neighbors(b.king_sq as int, b.size()).len() && b.board@[#[trigger] spec_vh_neighbors(
                b.king_sq as int,
                b.size(),
            )[k]] == Piece::EMPTY),
{
    let nb = spec_all_neighbors(b.last_move_to as int, b.size());
    lemma_guards_among_one(b.board@, b.size(), nb, i);
    if !spec_is_edge(b.last_move_to as int, b.size()) {
        lemma_guards_among_two(b.board@, b.size(), nb, i, j);
    }
}

/// A king move may always have closed a fort.
pub proof fn lemma_king_move_is_checked(b: Board)
    requires
        b.wf(),
        b.last_move_to != HOLE,
        b.board@[b.last_move_to as int] == Piece::KING,
    ensures
        spec_fort_calc_needed(&b),
{
}

// ---------------------------------------------------------------------------
// Free runs along the edges.
// ---------------------------------------------------------------------------

/// Square `i` of edge `w` of an `n`x`n` board: 0 the bottom row, 1 the top
/// row, 2 the left column, 3 the right column, counted from the bottom left.
pub open spec fn edge_square(n: int, w: int, i: int) -> int {
    if w == 0 {
        i
    } else if w == 1 {
        (n - 1) * n + i
    } else if w == 2 {
        i * n
    } else {
        i * n + n - 1
    }
}

/// Squares `start .. start + len` of edge `w` are all free: empty, and
/// reached from no corner.
pub open spec fn free_run_on_edge(b: &Board, w: int, start: int, len: int) -> bool {
    &&& 0 <= start
    &&& start + len <= b.size()
    &&& forall|i: int| start <= i < start + len ==> #[trigger] is_free(b, edge_square(b.size(), w, i))
}

proof fn lemma_run_stats_bounds(b: &Board, e: Seq<Square>)
    ensures
        run_stats(b, e).0 >= run_stats(b, e).1,
        run_stats(b, e).1 >= 0,
    decreases e.len(),
{
    if e.len() > 0 {
        lemma_run_stats_bounds(b, e.drop_last());
    }
}

/// A free stretch ending at `k` makes the current run at least its length.
proof fn lemma_run_stats_tail(b: &Board, e: Seq<Square>, j: int, k: int)
    requires
        0 <= j <= k <= e.len(),
        forall|i: int| j <= i < k ==> #[trigger] is_free(b, e[i] as int),
    ensures
        run_stats(b, e.subrange(0, k)).1 >= k - j,
    decreases k,
{
    lemma_run_stats_bounds(b, e.subrange(0, k));
    if k > j {
        lemma_run_stats_tail(b, e, j, k - 1);
        assert(e.subrange(0, k).drop_last() =~= e.subrange(0, k - 1));
        assert(e.subrange(0, k).last() == e[k - 1]);
    }
}

/// The longest run never shrinks as the edge goes on.
proof fn lemma_run_stats_grows(b: &Board, e: Seq<Square>, k: int, m: int)
    requires
        0 <= k <= m <= e.len(),
    ensures
        run_stats(b, e.subrange(0, m)).0 >= run_stats(b, e.subrange(0, k)).0,
    decreases m,
{
    if m > k {
        lemma_run_stats_grows(b, e, k, m - 1);
        assert(e.subrange(0, m).drop_last() =~= e.subrange(0, m - 1));
        lemma_run_stats_bounds(b, e.subrange(0, m - 1));
    }
}

/// A free run of `len` squares along any of the four edges, the bottom row
/// included, makes the longest free run at least `len`.
pub proof fn lemma_free_run_counts(b: &Board, w: int, start: int, len: int)
    requires
        b.wf(),
        0 <= w < 4,
        len >= 0,
        free_run_on_edge(b, w, start, len),
    ensures
        max_free_run(b) >= len,
{
    let n = b.size();
    let e = spec_edges(n)[w];
    assert(e.len() == n);
    assert forall|i: int| start <= i < start + len implies #[trigger] is_free(b, e[i] as int) by {
        assert(is_free(b, edge_square(n, w, i)));
        assert(0 <= i < n);
        assert(0 <= (n - 1) * n + i) by (nonlinear_arith)
            requires
                n >= 3,
                i >= 0,
        ;
        assert(0 <= i * n) by (nonlinear_arith)
            requires
                n >= 3,
                i >= 0,
        ;
        assert(e[i] as int == edge_square(n, w, i));
    }
    lemma_run_stats_tail(b, e, start, start + len);
    lemma_run_stats_bounds(b, e.subrange(0, start + len));
    lemma_run_stats_grows(b, e, start + len, n);
    assert(e.subrange(0, n) =~= e);
    let s = seq![
        run_stats(b, spec_edges(n)[0]).0,
        run_stats(b, spec_edges(n)[1]).0,
        run_stats(b, spec_edges(n)[2]).0,
        run_stats(b, spec_edges(n)[3]).0,
    ];
    assert(run_stats(b, e).0 == s[w]);
}

/// A Copenhagen training game goes on while four defenders could still
/// close a fort on a free run of four along some edge, or five on a run of
/// three; with no defender reaching a corner and no such room on any edge,
/// the attackers have won.
pub proof fn lemma_train_terminal_room_for_fort(b: &Board, w: int, start: int, len: int)
    requires
        b.wf(),
        b.rules == RulesEnum::Copenhagen11x11,
        0 <= w < 4,
        free_run_on_edge(b, w, start, len),
        (len >= 4 && b.defenders_count >= 4) || (len >= 3 && b.defenders_count >= 5),
    ensures
        spec_train_terminal(b) is None,
{
    lemma_free_run_counts(b, w, start, len);
}

/// With no defender reaching a corner, a decided training game leaves no
/// room on any edge: every free run is shorter than four, or than three
/// when five defenders remain.
pub proof fn lemma_train_terminal_decided(b: &Board, w: int, start: int, len: int)
    requires
        b.wf(),
        spec_train_terminal(b) == Some(Side::ATTACKERS),
        0 <= w < 4,
        free_run_on_edge(b, w, start, len),
    ensures
        b.rules == RulesEnum::Copenhagen11x11,
        !defenders_reach_corner(b),
        b.defenders_count >= 4 ==> len < 4,
        b.defenders_count >= 5 ==> len < 3,
{
    if len >= 0 {
        lemma_free_run_counts(b, w, start, len);
    }
}

} // verus!
