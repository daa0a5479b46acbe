use vstd::prelude::*;
use crate::board::Board;
use crate::board::constants::HOLE;
use crate::board::rules::{spec_has_corners_win, spec_has_edge_win, spec_has_fort_win, RulesEnum};
use crate::board::utils::{is_corner, is_edge_square, spec_is_edge};
use crate::evaluation::fort::{check_fort, fort_candidate, fort_holds};
use crate::evaluation::surround::{defenders_is_surrounded, spec_calculate_needed, spec_defenders_enclosed};
use crate::board::types::{Piece, Side, Square};
use crate::evaluation::surround::{defender_squares, defender_starts, lemma_vh_table_ok, pass_mask, passable_mask};
use crate::utils::bfs::{bfs, spec_reachable};

verus! {

/// `s` is reached from some corner through squares free of attackers.
pub open spec fn corner_reached(b: &Board, s: int) -> bool {
    exists|k: int|
        0 <= k < 4 && #[trigger] spec_reachable(
            pass_mask(b.board@),
            b.precomputed.vertical_horizontal_neighbors@,
            seq![b.precomputed.corners_sq@[k]],
            s,
        )
}

/// Some defender reaches a corner through squares free of attackers.
pub open spec fn defenders_reach_corner(b: &Board) -> bool {
    exists|k: int|
        0 <= k < 4 && #[trigger] spec_reachable(
            pass_mask(b.board@),
            b.precomputed.vertical_horizontal_neighbors@,
            defender_starts(b),
            b.precomputed.corners_sq@[k] as int,
        )
}

/// An empty square that no corner reaches: room for a fort.
pub open spec fn is_free(b: &Board, s: int) -> bool {
    b.board@[s] == Piece::EMPTY && !corner_reached(b, s)
}

/// Along `edge`: the longest run of free squares so far, and the current run.
pub open spec fn run_stats(b: &Board, edge: Seq<Square>) -> (int, int)
    decreases edge.len(),
{
    if edge.len() == 0 {
        (0, 0)
    } else {
        let (m, r) = run_stats(b, edge.drop_last());
        if is_free(b, edge.last() as int) {
            (if r + 1 > m {
                r + 1
            } else {
                m
            }, r + 1)
        } else {
            (m, 0)
        }
    }
}

pub open spec fn edge_line(n: int, start: int, step: int) -> Seq<Square> {
    Seq::new(n as nat, |i: int| (start + i * step) as usize)
}

/// The four edges: bottom and top rows, left and right columns.
pub open spec fn spec_edges(n: int) -> Seq<Seq<Square>> {
    seq![edge_line(n, 0, 1), edge_line(n, (n - 1) * n, 1), edge_line(n, 0, n), edge_line(n, n - 1, n)]
}

pub open spec fn max4(a: int, b: int, c: int, d: int) -> int {
    let ab = if a > b {
        a
    } else {
        b
    };
    let cd = if c > d {
        c
    } else {
        d
    };
    if ab > cd {
        ab
    } else {
        cd
    }
}

/// The longest run of free squares along any edge.
pub open spec fn max_free_run(b: &Board) -> int {
    let e = spec_edges(b.size());
    max4(run_stats(b, e[0]).0, run_stats(b, e[1]).0, run_stats(b, e[2]).0, run_stats(b, e[3]).0)
}

/// The training games' early end for Copenhagen: the attackers have won once
/// no defender reaches a corner and no edge leaves room for a fort the
/// defenders could still build (a gap of four with four defenders, or a gap
/// of three with five).
pub open spec fn spec_train_terminal(b: &Board) -> Option<Side> {
    if b.rules != RulesEnum::Copenhagen11x11 {
        None
    } else if defenders_reach_corner(b) {
        None
    } else if max_free_run(b) >= 4 && b.defenders_count >= 4 {
        None
    } else if max_free_run(b) >= 3 && b.defenders_count >= 5 {
        None
    } else {
        Some(Side::ATTACKERS)
    }
}

fn edge_squares(n: usize, start: usize, step: usize) -> (v: Vec<Square>)
    requires
        3 <= n <= 11,
        start + (n - 1) * step < n * n,
    ensures
        v@ == edge_line(n as int, start as int, step as int),
        forall|k: int| 0 <= k < v@.len() ==> #[trigger] v@[k] < n * n,
{
    let mut v: Vec<Square> = Vec::new();
    let mut i: usize = 0;
    while i < n
        invariant
            3 <= n <= 11,
            start + (n - 1) * step < n * n,
            i <= n,
            v@.len() == i,
            forall|k: int| 0 <= k < i ==> #[trigger] v@[k] == (start + k * step) as usize,
            forall|k: int| 0 <= k < i ==> #[trigger] v@[k] < n * n,
        decreases n - i,
    {
        proof {
            assert(i * step <= (n - 1) * step) by (nonlinear_arith)
                requires
                    i <= n - 1,
            ;
            crate::board::utils::lemma_small_board(n as int);
        }
        v.push(start + i * step);
        i += 1;
    }
    proof {
        assert(v@ =~= edge_line(n as int, start as int, step as int));
    }
    v
}

fn longest_free_run(board: &Board, reach: &Vec<bool>, edge: &Vec<Square>) -> (m: usize)
    requires
        board.wf(),
        reach@.len() == board.sqs(),
        forall|s: int| 0 <= s < board.sqs() ==> (#[trigger] reach@[s] <==> corner_reached(board, s)),
        forall|k: int| 0 <= k < edge@.len() ==> #[trigger] edge@[k] < board.sqs(),
        edge@.len() <= 11,
    ensures
        m == run_stats(board, edge@).0,
{
    let mut max_run: usize = 0;
    let mut run: usize = 0;
    let mut i: usize = 0;
    while i < edge.len()
        invariant
            board.wf(),
            reach@.len() == board.sqs(),
            forall|s: int| 0 <= s < board.sqs() ==> (#[trigger] reach@[s] <==> corner_reached(board, s)),
            forall|k: int| 0 <= k < edge@.len() ==> #[trigger] edge@[k] < board.sqs(),
            edge@.len() <= 11,
            i <= edge@.len(),
            (max_run as int, run as int) == run_stats(board, edge@.subrange(0, i as int)),
            run <= i,
            max_run <= i,
        decreases edge@.len() - i,
    {
        let sq = edge[i];
        proof {
            assert(edge@.subrange(0, i + 1).drop_last() =~= edge@.subrange(0, i as int));
            assert(edge@.subrange(0, i + 1).last() == sq);
        }
        if board.board[sq] == Piece::EMPTY && !reach[sq] {
            run += 1;
            if run > max_run {
                max_run = run;
            }
        } else {
            run = 0;
        }
        i += 1;
    }
    proof {
        assert(edge@.subrange(0, edge@.len() as int) =~= edge@);
    }
    max_run
}

/// Whether a Copenhagen training game is decided early for the attackers.
pub fn check_copenhagen_train_terminal(board: &Board) -> (r: Option<Side>)
    requires
        board.wf(),
    ensures
        r == spec_train_terminal(board),
{
    if board.rules != RulesEnum::Copenhagen11x11 {
        return None;
    }
    let n = board.board_size();
    proof {
        crate::board::utils::lemma_small_board(n as int);
        lemma_vh_table_ok(&board.precomputed, n as int);
        crate::board::utils::lemma_square_compose(0, 0, n as int);
        crate::board::utils::lemma_square_compose(0, n - 1, n as int);
        crate::board::utils::lemma_square_compose(n - 1, 0, n as int);
        crate::board::utils::lemma_square_compose(n - 1, n - 1, n as int);
    }
    let sqs = n * n;
    let mask = passable_mask(board);
    let starts = defender_squares(board);
    let defenders_count = board.defenders_count as usize;
    let reached = bfs(&mask, &board.precomputed.vertical_horizontal_neighbors, &starts);
    let corners = &board.precomputed.corners_sq;
    if reached[corners[0]] || reached[corners[1]] || reached[corners[2]] || reached[corners[3]] {
        return None;
    }
    proof {
        assert forall|k: int| 0 <= k < 4 implies !#[trigger] spec_reachable(
            pass_mask(board.board@),
            board.precomputed.vertical_horizontal_neighbors@,
            defender_starts(board),
            board.precomputed.corners_sq@[k] as int,
        ) by {
            assert(!reached@[corners@[k] as int]);
        }
    }

    // The squares some corner reaches.
    let mut corner_reachable: Vec<bool> = Vec::new();
    let mut i: usize = 0;
    while i < sqs
        invariant
            sqs == n * n,
            i <= n * n,
            corner_reachable@.len() == i,
            forall|s: int| 0 <= s < i ==> !#[trigger] corner_reachable@[s],
        decreases sqs - i,
    {
        corner_reachable.push(false);
        i += 1;
    }
    let mut c: usize = 0;
    while c < 4
        invariant
            board.wf(),
            n == board.size(),
            3 <= n <= 11,
            mask@ == pass_mask(board.board@),
            crate::utils::bfs::neighbors_ok(board.precomputed.vertical_horizontal_neighbors@, n * n),
            corners@ == board.precomputed.corners_sq@,
            corners@.len() == 4,
            forall|k: int| 0 <= k < 4 ==> #[trigger] corners@[k] < n * n,
            c <= 4,
            sqs == n * n,
            corner_reachable@.len() == n * n,
            forall|s: int|
                0 <= s < n * n ==> (#[trigger] corner_reachable@[s] <==> exists|k: int|
                    0 <= k < c && #[trigger] spec_reachable(mask@, board.precomputed.vertical_horizontal_neighbors@, seq![corners@[k]], s)),
        decreases 4 - c,
    {
        let mut single: Vec<Square> = Vec::new();
        single.push(corners[c]);
        proof {
            assert(single@ =~= seq![corners@[c as int]]);
        }
        let from_corner = bfs(&mask, &board.precomputed.vertical_horizontal_neighbors, &single);
        let mut s: usize = 0;
        let ghost before = corner_reachable@;
        while s < sqs
            invariant
                n * n == from_corner@.len(),
                sqs == n * n,
                corner_reachable@.len() == n * n,
                s <= n * n,
                forall|t: int| 0 <= t < s ==> #[trigger] corner_reachable@[t] == (before[t] || from_corner@[t]),
                forall|t: int| s <= t < n * n ==> #[trigger] corner_reachable@[t] == before[t],
            decreases sqs - s,
        {
            let v = corner_reachable[s] || from_corner[s];
            corner_reachable.set(s, v);
            s += 1;
        }
        proof {
            assert forall|t: int| 0 <= t < n * n implies (#[trigger] corner_reachable@[t] <==> exists|k: int|
                0 <= k < c + 1 && #[trigger] spec_reachable(mask@, board.precomputed.vertical_horizontal_neighbors@, seq![corners@[k]], t)) by {
                if from_corner@[t] {
                    assert(spec_reachable(mask@, board.precomputed.vertical_horizontal_neighbors@, seq![corners@[c as int]], t));
                }
                if exists|k: int|
                    0 <= k < c + 1 && #[trigger] spec_reachable(mask@, board.precomputed.vertical_horizontal_neighbors@, seq![corners@[k]], t) {
                    let k = choose|k: int|
                        0 <= k < c + 1 && #[trigger] spec_reachable(mask@, board.precomputed.vertical_horizontal_neighbors@, seq![corners@[k]], t);
                    if k < c {
                        assert(before[t]);
                    } else {
                        assert(single@ == seq![corners@[k]]);
                    }
                }
            }
        }
        c += 1;
    }
    proof {
        assert((n - 1) * n + (n - 1) * 1 < n * n) by (nonlinear_arith)
            requires
                n >= 3,
        ;
        assert(0 + (n - 1) * n < n * n) by (nonlinear_arith)
            requires
                n >= 3,
        ;
        assert((n - 1) + (n - 1) * n < n * n) by (nonlinear_arith)
            requires
                n >= 3,
        ;
    }
    let bottom = edge_squares(n, 0, 1);
    let top = edge_squares(n, (n - 1) * n, 1);
    let left = edge_squares(n, 0, n);
    let right = edge_squares(n, n - 1, n);
    proof {
        assert forall|s: int| 0 <= s < board.sqs() implies (#[trigger] corner_reachable@[s] <==> corner_reached(board, s)) by {}
    }
    let m0 = longest_free_run(board, &corner_reachable, &bottom);
    let m1 = longest_free_run(board, &corner_reachable, &top);
    let m2 = longest_free_run(board, &corner_reachable, &left);
    let m3 = longest_free_run(board, &corner_reachable, &right);
    let ab = if m0 > m1 { m0 } else { m1 };
    let cd = if m2 > m3 { m2 } else { m3 };
    let max_free = if ab > cd { ab } else { cd };
    proof {
        assert(spec_edges(n as int)[0] == bottom@);
        assert(spec_edges(n as int)[1] == top@);
        assert(spec_edges(n as int)[2] == left@);
        assert(spec_edges(n as int)[3] == right@);
    }
    if max_free >= 4 && defenders_count >= 4 {
        return None;
    }
    if max_free >= 3 && defenders_count >= 5 {
        return None;
    }
    Some(Side::ATTACKERS)
}

/// How a game ended.
#[derive(Clone, Copy, Debug, PartialEq, Eq, Structural)]
pub enum TerminalType {
    KingCaptured,
    ThreefoldRepetition,
    KingOnCorner,
    DefendersSurrounded,
    FortCheck,
}

/// The side that wins a game ended this way.
pub open spec fn spec_terminal_winner(t: TerminalType) -> Side {
    match t {
        TerminalType::KingOnCorner | TerminalType::FortCheck => Side::DEFENDERS,
        _ => Side::ATTACKERS,
    }
}

/// The winner of a finished game, or nothing while the game goes on.
pub open spec fn game_result(b: Board) -> Option<Side> {
    match spec_get_terminal(b) {
        Some(t) => Some(spec_terminal_winner(t)),
        None => None,
    }
}

/// The current position has been seen three times or more.
pub open spec fn spec_threefold(b: &Board) -> bool {
    b.rep_table@.contains_key(b.zobrist) && b.rep_table@[b.zobrist] >= 3
}

/// The king stands on an escape square of the variant: a corner where
/// corners win, any edge square where edges win.
pub open spec fn king_escaped(b: &Board) -> bool {
    let k = b.king_sq as int;
    let n = b.size();
    &&& b.king_sq != HOLE
    &&& ((spec_has_corners_win(b.rules) && is_corner(k, n)) || (spec_has_edge_win(b.rules) && spec_is_edge(k, n)))
}

/// How the game stands ended, checked in this order: the king is taken, the
/// king escaped, the position came a third time, the defenders are shut in,
/// the defenders hold an unbreakable edge fort (where forts win).
pub open spec fn spec_get_terminal(b: Board) -> Option<TerminalType> {
    if b.king_sq == HOLE {
        Some(TerminalType::KingCaptured)
    } else if king_escaped(&b) {
        Some(TerminalType::KingOnCorner)
    } else if spec_threefold(&b) {
        Some(TerminalType::ThreefoldRepetition)
    } else if spec_calculate_needed(&b) && spec_defenders_enclosed(&b) {
        Some(TerminalType::DefendersSurrounded)
    } else if spec_has_fort_win(b.rules) && fort_candidate(b) && fort_holds(b) {
        Some(TerminalType::FortCheck)
    } else {
        None
    }
}

/// Whether the current position has come up three times.
pub fn is_threefold_repetition(board: &Board) -> (b: bool)
    ensures
        b == spec_threefold(board),
{
    match board.rep_table.get(&board.zobrist) {
        Some(count) => *count >= 3,
        None => false,
    }
}

/// How the game has ended, if it has. The board is used for the fort test
/// and given back with the same squares.
pub fn get_terminal(board: &mut Board) -> (r: Option<TerminalType>)
    requires
        old(board).wf(),
    ensures
        r == spec_get_terminal(*old(board)),
        final(board).wf(),
        final(board).board@ == old(board).board@,
        final(board).same_except_cells(old(board)),
        final(board).king_sq == old(board).king_sq,
        final(board).attackers_count == old(board).attackers_count,
        final(board).defenders_count == old(board).defenders_count,
{
    if board.king_sq == HOLE {
        return Some(TerminalType::KingCaptured);
    }
    let rules = board.rules;
    let n = board.board_size();
    let king = board.king_sq as usize;
    let c = &board.precomputed.corners_sq;
    let on_corner = king == c[0] || king == c[1] || king == c[2] || king == c[3];
    if (rules.has_corners_win() && on_corner) || (rules.has_edge_win() && is_edge_square(king, n)) {
        return Some(TerminalType::KingOnCorner);
    }
    if is_threefold_repetition(board) {
        return Some(TerminalType::ThreefoldRepetition);
    }
    if defenders_is_surrounded(board) {
        return Some(TerminalType::DefendersSurrounded);
    }
    if rules.has_fort_win() && check_fort(board) {
        return Some(TerminalType::FortCheck);
    }
    None
}

/// The winner, if the game has ended.
pub fn check_terminal(board: &mut Board) -> (r: Option<Side>)
    requires
        old(board).wf(),
    ensures
        r == game_result(*old(board)),
        final(board).wf(),
        final(board).board@ == old(board).board@,
        final(board).same_except_cells(old(board)),
        final(board).king_sq == old(board).king_sq,
        final(board).attackers_count == old(board).attackers_count,
        final(board).defenders_count == old(board).defenders_count,
{
    match get_terminal(board) {
        Some(TerminalType::KingOnCorner) | Some(TerminalType::FortCheck) => Some(Side::DEFENDERS),
        Some(_) => Some(Side::ATTACKERS),
        None => None,
    }
}

} // verus!
