use vstd::prelude::*;
use crate::board::Board;
use crate::board::constants::HOLE;
use crate::board::rules::{spec_board_size, RulesEnum};
use crate::board::types::{belongs_to, spec_opposite, Piece, Side};
use crate::board::utils::{col_of, lemma_small_board, lemma_square_parts, row_of, square_at};
use crate::moves::legal::{lemma_generate_moves_distinct, lemma_generate_moves_legal, pairs_distinct, spec_is_legal_move};
use crate::moves::make_move::{make_cells, move_applicable, rep_add, rep_remove};
use crate::moves::movegen::{line_square, move_pairs, spec_generate_moves, MoveGen};
use crate::moves::mv::Move;
use crate::moves::roundtrip::{lemma_make_move_record_applies, lemma_unmake_restores_position};
use crate::moves::undo::UndoMove;

verus! {

/// The king's square, or -1 where there is no king.
pub open spec fn king_of(cells: Seq<Piece>) -> int {
    if exists|s: int| 0 <= s < cells.len() && cells[s] == Piece::KING {
        choose|s: int| 0 <= s < cells.len() && cells[s] == Piece::KING
    } else {
        -1
    }
}

/// Ordered pairs of squares of a variant's board.
pub open spec fn pair_count(rules: RulesEnum) -> int {
    match rules {
        RulesEnum::Copenhagen11x11 => 14641,
        RulesEnum::Historical11x11 => 14641,
        RulesEnum::Tablut9x9 => 6561,
    }
}

/// The `k`-th ordered pair of squares, origins first.
pub open spec fn pair_of(k: int, m: int) -> (int, int) {
    (k / m, k % m)
}

/// The squares after a legal move from `p.0` to `p.1`.
pub open spec fn next_cells(cells: Seq<Piece>, side: Side, rules: RulesEnum, p: (int, int)) -> Seq<Piece> {
    make_cells(cells, rules, side, king_of(cells), p.0, p.1).0
}

/// The leaves of the move tree of depth `depth` from a position: 1 at depth
/// zero, else the sum over the legal moves of the leaves below each.
pub open spec fn spec_perft(cells: Seq<Piece>, side: Side, rules: RulesEnum, depth: nat) -> int
    decreases depth, 20000int,
{
    if depth == 0 {
        1
    } else {
        perft_sum(cells, side, rules, depth, pair_count(rules))
    }
}

/// The sum of the leaves below the legal moves among the first `k` pairs.
pub open spec fn perft_sum(cells: Seq<Piece>, side: Side, rules: RulesEnum, depth: nat, k: int) -> int
    decreases depth, k,
{
    if depth == 0 || k <= 0 || k > 20000 {
        0
    } else {
        let n = spec_board_size(rules) as int;
        let p = pair_of(k - 1, n * n);
        perft_sum(cells, side, rules, depth, k - 1) + if spec_is_legal_move(cells, n, side, p.0, p.1) {
            spec_perft(next_cells(cells, side, rules, p), spec_opposite(side), rules, (depth - 1) as nat)
        } else {
            0
        }
    }
}

/// The sum of the leaves below the listed moves.
pub open spec fn list_sum(cells: Seq<Piece>, side: Side, rules: RulesEnum, depth: nat, l: Seq<(int, int)>) -> int
    decreases l.len(),
{
    if l.len() == 0 || depth == 0 {
        0
    } else {
        list_sum(cells, side, rules, depth, l.drop_last()) + spec_perft(
            next_cells(cells, side, rules, l.last()),
            spec_opposite(side),
            rules,
            (depth - 1) as nat,
        )
    }
}

// ---------------------------------------------------------------------------
// Sums over a listed set of pairs and over all pairs in order.
// ---------------------------------------------------------------------------

pub open spec fn seq_sum(l: Seq<(int, int)>, g: spec_fn((int, int)) -> int) -> int
    decreases l.len(),
{
    if l.len() == 0 {
        0
    } else {
        seq_sum(l.drop_last(), g) + g(l.last())
    }
}

pub open spec fn range_sum(k: int, m: int, pred: spec_fn((int, int)) -> bool, g: spec_fn((int, int)) -> int) -> int
    decreases k,
{
    if k <= 0 {
        0
    } else {
        range_sum(k - 1, m, pred, g) + if pred(pair_of(k - 1, m)) {
            g(pair_of(k - 1, m))
        } else {
            0
        }
    }
}

pub open spec fn no_dup(l: Seq<(int, int)>) -> bool {
    forall|i: int, j: int| 0 <= i < j < l.len() ==> l[i] != l[j]
}

pub open spec fn in_grid(p: (int, int), m: int) -> bool {
    0 <= p.0 < m && 0 <= p.1 < m
}

proof fn lemma_pair_index(p: (int, int), m: int)
    requires
        m > 0,
        in_grid(p, m),
    ensures
        pair_of(p.0 * m + p.1, m) == p,
        0 <= p.0 * m + p.1 < m * m,
{
    vstd::arithmetic::div_mod::lemma_fundamental_div_mod_converse(p.0 * m + p.1, m, p.0, p.1);
    assert(p.0 * m + p.1 < m * m) by (nonlinear_arith)
        requires
            0 <= p.0 < m,
            0 <= p.1 < m,
    ;
    assert(0 <= p.0 * m) by (nonlinear_arith)
        requires
            0 <= p.0,
            m > 0,
    ;
}

proof fn lemma_pair_in_grid(k: int, m: int)
    requires
        m > 0,
        0 <= k < m * m,
    ensures
        in_grid(pair_of(k, m), m),
        pair_of(k, m).0 * m + pair_of(k, m).1 == k,
{
    vstd::arithmetic::div_mod::lemma_fundamental_div_mod(k, m);
    vstd::arithmetic::div_mod::lemma_mod_bound(k, m);
    vstd::arithmetic::div_mod::lemma_div_pos_is_pos(k, m);
    assert(k / m < m) by {
        vstd::arithmetic::div_mod::lemma_div_by_multiple_is_strongly_ordered(k, m * m, m, m);
        vstd::arithmetic::div_mod::lemma_div_by_multiple(m, m);
    }
    assert(k / m * m + k % m == k) by (nonlinear_arith)
        requires
            k == m * (k / m) + k % m,
    ;
}

/// Taking one grid point out of the predicate takes its term out of the sum.
proof fn lemma_range_sum_remove(
    k: int,
    m: int,
    pred: spec_fn((int, int)) -> bool,
    pred2: spec_fn((int, int)) -> bool,
    g: spec_fn((int, int)) -> int,
    x: (int, int),
)
    requires
        m > 0,
        0 <= k <= m * m,
        in_grid(x, m),
        pred(x),
        forall|p: (int, int)| #[trigger] pred2(p) == (pred(p) && p != x),
    ensures
        range_sum(k, m, pred, g) == range_sum(k, m, pred2, g) + if x.0 * m + x.1 < k {
            g(x)
        } else {
            0
        },
    decreases k,
{
    if k > 0 {
        lemma_range_sum_remove(k - 1, m, pred, pred2, g, x);
        lemma_pair_in_grid(k - 1, m);
        lemma_pair_index(x, m);
        let p = pair_of(k - 1, m);
        if p == x {
            assert(x.0 * m + x.1 == k - 1);
        } else {
            assert(x.0 * m + x.1 != k - 1) by {
                if x.0 * m + x.1 == k - 1 {
                    assert(pair_of(x.0 * m + x.1, m) == x);
                }
            }
        }
    }
}

proof fn lemma_range_sum_empty(k: int, m: int, pred: spec_fn((int, int)) -> bool, g: spec_fn((int, int)) -> int)
    requires
        m > 0,
        0 <= k <= m * m,
        forall|p: (int, int)| in_grid(p, m) ==> !#[trigger] pred(p),
    ensures
        range_sum(k, m, pred, g) == 0,
    decreases k,
{
    if k > 0 {
        lemma_range_sum_empty(k - 1, m, pred, g);
        lemma_pair_in_grid(k - 1, m);
    }
}

/// Summing over a list that holds each point of the predicate once is
/// summing over the grid in order.
proof fn lemma_seq_sum_is_range_sum(
    l: Seq<(int, int)>,
    m: int,
    pred: spec_fn((int, int)) -> bool,
    g: spec_fn((int, int)) -> int,
)
    requires
        m > 0,
        no_dup(l),
        forall|i: int| 0 <= i < l.len() ==> in_grid(#[trigger] l[i], m),
        forall|p: (int, int)| in_grid(p, m) ==> (#[trigger] pred(p) <==> l.contains(p)),
    ensures
        seq_sum(l, g) == range_sum(m * m, m, pred, g),
    decreases l.len(),
{
    if l.len() == 0 {
        lemma_range_sum_empty(m * m, m, pred, g);
    } else {
        let x = l.last();
        let init = l.drop_last();
        let pred2 = |p: (int, int)| pred(p) && p != x;
        assert(in_grid(x, m));
        assert(l.contains(x));
        assert forall|p: (int, int)| in_grid(p, m) implies (#[trigger] pred2(p) <==> init.contains(p)) by {
            if init.contains(p) {
                let i = choose|i: int| 0 <= i < init.len() && init[i] == p;
                assert(l[i] == p);
                assert(l[i] != l[l.len() - 1]);
            }
            if pred2(p) {
                assert(l.contains(p));
                let i = choose|i: int| 0 <= i < l.len() && l[i] == p;
                assert(i != l.len() - 1);
                assert(init[i] == p);
            }
        }
        assert forall|i: int| 0 <= i < init.len() implies in_grid(#[trigger] init[i], m) by {
            assert(init[i] == l[i]);
        }
        assert(no_dup(init)) by {
            assert forall|i: int, j: int| 0 <= i < j < init.len() implies init[i] != init[j] by {
                assert(init[i] == l[i] && init[j] == l[j]);
            }
        }
        lemma_seq_sum_is_range_sum(init, m, pred2, g);
        lemma_pair_index(x, m);
        lemma_range_sum_remove(m * m, m, pred, pred2, g, x);
    }
}

// ---------------------------------------------------------------------------
// The same sums written with the perft terms.
// ---------------------------------------------------------------------------

pub open spec fn perft_pred(cells: Seq<Piece>, side: Side, rules: RulesEnum) -> spec_fn((int, int)) -> bool {
    |p: (int, int)| spec_is_legal_move(cells, spec_board_size(rules) as int, side, p.0, p.1)
}

pub open spec fn perft_term(cells: Seq<Piece>, side: Side, rules: RulesEnum, depth: nat) -> spec_fn((int, int)) -> int {
    |p: (int, int)| spec_perft(next_cells(cells, side, rules, p), spec_opposite(side), rules, (depth - 1) as nat)
}

proof fn lemma_perft_sum_range(cells: Seq<Piece>, side: Side, rules: RulesEnum, depth: nat, k: int)
    requires
        depth >= 1,
        0 <= k <= 20000,
    ensures
        perft_sum(cells, side, rules, depth, k) == range_sum(
            k,
            spec_board_size(rules) as int * spec_board_size(rules) as int,
            perft_pred(cells, side, rules),
            perft_term(cells, side, rules, depth),
        ),
    decreases k,
{
    if k > 0 {
        lemma_perft_sum_range(cells, side, rules, depth, k - 1);
    }
}

proof fn lemma_list_sum_seq(cells: Seq<Piece>, side: Side, rules: RulesEnum, depth: nat, l: Seq<(int, int)>)
    requires
        depth >= 1,
    ensures
        list_sum(cells, side, rules, depth, l) == seq_sum(l, perft_term(cells, side, rules, depth)),
    decreases l.len(),
{
    if l.len() > 0 {
        lemma_list_sum_seq(cells, side, rules, depth, l.drop_last());
    }
}

pub proof fn lemma_perft_nonneg(cells: Seq<Piece>, side: Side, rules: RulesEnum, depth: nat)
    ensures
        spec_perft(cells, side, rules, depth) >= 0,
    decreases depth, 20000int,
{
    if depth > 0 {
        lemma_perft_sum_nonneg(cells, side, rules, depth, pair_count(rules));
    }
}

proof fn lemma_perft_sum_nonneg(cells: Seq<Piece>, side: Side, rules: RulesEnum, depth: nat, k: int)
    ensures
        perft_sum(cells, side, rules, depth, k) >= 0,
    decreases depth, k,
{
    if depth > 0 && k > 0 && k <= 20000 {
        lemma_perft_sum_nonneg(cells, side, rules, depth, k - 1);
        let n = spec_board_size(rules) as int;
        let p = pair_of(k - 1, n * n);
        lemma_perft_nonneg(next_cells(cells, side, rules, p), spec_opposite(side), rules, (depth - 1) as nat);
    }
}

/// A prefix of the listed moves sums to no more than the whole list.
pub proof fn lemma_list_sum_prefix(cells: Seq<Piece>, side: Side, rules: RulesEnum, depth: nat, l: Seq<(int, int)>, i: int)
    requires
        0 <= i <= l.len(),
    ensures
        list_sum(cells, side, rules, depth, l.subrange(0, i)) <= list_sum(cells, side, rules, depth, l),
        i < l.len() && depth >= 1 ==> list_sum(cells, side, rules, depth, l.subrange(0, i + 1)) == list_sum(
            cells,
            side,
            rules,
            depth,
            l.subrange(0, i),
        ) + spec_perft(next_cells(cells, side, rules, l[i]), spec_opposite(side), rules, (depth - 1) as nat),
    decreases l.len() - i,
{
    if i < l.len() {
        lemma_list_sum_prefix(cells, side, rules, depth, l, i + 1);
        assert(l.subrange(0, i + 1).drop_last() =~= l.subrange(0, i));
        lemma_perft_nonneg(next_cells(cells, side, rules, l[i]), spec_opposite(side), rules, (depth - 1) as nat);
    } else {
        assert(l.subrange(0, i) =~= l);
    }
}

/// The leaves below the listed moves of a position, when the list holds each
/// legal move exactly once, are the position's perft count.
pub proof fn lemma_list_sum_is_perft(cells: Seq<Piece>, side: Side, rules: RulesEnum, depth: nat, l: Seq<(int, int)>)
    requires
        depth >= 1,
        no_dup(l),
        forall|i: int|
            0 <= i < l.len() ==> in_grid(
                #[trigger] l[i],
                spec_board_size(rules) as int * spec_board_size(rules) as int,
            ),
        forall|p: (int, int)|
            in_grid(p, spec_board_size(rules) as int * spec_board_size(rules) as int) ==> (spec_is_legal_move(
                cells,
                spec_board_size(rules) as int,
                side,
                p.0,
                p.1,
            ) <==> #[trigger] l.contains(p)),
    ensures
        list_sum(cells, side, rules, depth, l) == spec_perft(cells, side, rules, depth),
{
    let n = spec_board_size(rules) as int;
    let m = n * n;
    assert(m * m == pair_count(rules)) by {
        match rules {
            RulesEnum::Copenhagen11x11 => {
                assert(n == 11);
                assert(m * m == 14641) by (nonlinear_arith)
                    requires
                        m == n * n,
                        n == 11,
                ;
            },
            RulesEnum::Historical11x11 => {
                assert(n == 11);
                assert(m * m == 14641) by (nonlinear_arith)
                    requires
                        m == n * n,
                        n == 11,
                ;
            },
            RulesEnum::Tablut9x9 => {
                assert(n == 9);
                assert(m * m == 6561) by (nonlinear_arith)
                    requires
                        m == n * n,
                        n == 9,
                ;
            },
        }
    }
    lemma_list_sum_seq(cells, side, rules, depth, l);
    let pred = perft_pred(cells, side, rules);
    assert forall|p: (int, int)| in_grid(p, m) implies (#[trigger] pred(p) <==> l.contains(p)) by {}
    lemma_seq_sum_is_range_sum(l, m, pred, perft_term(cells, side, rules, depth));
    lemma_perft_sum_range(cells, side, rules, depth, m * m);
}


/// On a board in order, `king_sq` is the king's square as the squares show it.
pub proof fn lemma_king_of(b: &Board)
    requires
        b.wf(),
    ensures
        b.king_sq as int == king_of(b.board@),
{
    if exists|s: int| 0 <= s < b.board@.len() && b.board@[s] == Piece::KING {
        let s = choose|s: int| 0 <= s < b.board@.len() && b.board@[s] == Piece::KING;
        assert(b.king_sq == s);
    } else if b.king_sq != HOLE {
        assert(b.board@[b.king_sq as int] == Piece::KING);
    }
}

/// A legal move can be played: its origin holds a piece of the side to move
/// and its destination is a different, empty square.
pub proof fn lemma_legal_move_applicable(b: &Board, mv: Move)
    requires
        b.wf(),
        spec_is_legal_move(b.board@, b.size(), b.side_to_move, mv.spec_from(), mv.spec_to()),
    ensures
        move_applicable(b, mv),
        belongs_to(b.board@[mv.spec_from()], b.side_to_move),
{
    let n = b.size();
    let from = mv.spec_from();
    let to = mv.spec_to();
    lemma_small_board(n);
    lemma_square_parts(from, n);
    lemma_square_parts(to, n);
    if row_of(to, n) == row_of(from, n) && crate::moves::movegen::line_dest(b.board@, n, from, true, col_of(to, n)) {
        assert(line_square(from, true, col_of(to, n), n) == to);
    } else {
        assert(line_square(from, false, row_of(to, n), n) == to);
    }
}

/// What `perft` keeps of the board: everything the position is made of.
pub open spec fn same_position(a: &Board, b: &Board) -> bool {
    &&& a.wf()
    &&& a.board@ == b.board@
    &&& a.side_to_move == b.side_to_move
    &&& a.rules == b.rules
    &&& a.king_sq == b.king_sq
    &&& a.attackers_count == b.attackers_count
    &&& a.defenders_count == b.defenders_count
    &&& a.zobrist == b.zobrist
    &&& a.last_move_to == b.last_move_to
    &&& a.halfmove_clock == b.halfmove_clock
    &&& a.halfmove_count == b.halfmove_count
    &&& a.zobrist_data == b.zobrist_data
    &&& a.precomputed == b.precomputed
}

/// The generated moves of a board are its legal moves, each once.
proof fn lemma_generated_is_legal_set(b: &Board)
    requires
        b.wf(),
    ensures
        no_dup(spec_generate_moves(b)),
        forall|i: int|
            0 <= i < spec_generate_moves(b).len() ==> in_grid(#[trigger] spec_generate_moves(b)[i], b.size() * b.size()),
        forall|p: (int, int)|
            in_grid(p, b.size() * b.size()) ==> (spec_is_legal_move(b.board@, b.size(), b.side_to_move, p.0, p.1)
                <==> #[trigger] spec_generate_moves(b).contains(p)),
{
    let l = spec_generate_moves(b);
    lemma_generate_moves_distinct(b);
    assert forall|i: int| 0 <= i < l.len() implies in_grid(#[trigger] l[i], b.size() * b.size()) by {
        lemma_generate_moves_legal(b, l[i].0, l[i].1);
        assert(l.contains(l[i]));
    }
    assert forall|p: (int, int)| in_grid(p, b.size() * b.size()) implies (spec_is_legal_move(
        b.board@,
        b.size(),
        b.side_to_move,
        p.0,
        p.1,
    ) <==> #[trigger] l.contains(p)) by {
        lemma_generate_moves_legal(b, p.0, p.1);
    }
}

/// Every position in the repetition table was seen at least once and fewer
/// than `bound` times.
pub open spec fn rep_counts_in(m: Map<u64, u8>, bound: int) -> bool {
    forall|z: u64| #[trigger] m.contains_key(z) ==> 1 <= m[z] < bound
}

/// Taking back one visit of a position that was seen fewer than 255 times
/// gives the table back.
proof fn lemma_rep_add_remove(m: Map<u64, u8>, z: u64)
    requires
        m.contains_key(z) ==> 1 <= m[z] < 255,
    ensures
        rep_remove(rep_add(m, z), z) == m,
{
    assert(rep_remove(rep_add(m, z), z) =~= m);
}

/// Plays `mv`, counts the leaves below it and takes it back.
fn count_below(board: &mut Board, mv: Move, depth: u32) -> (nodes: u64)
    requires
        old(board).wf(),
        depth >= 1,
        spec_is_legal_move(old(board).board@, old(board).size(), old(board).side_to_move, mv.spec_from(), mv.spec_to()),
        spec_perft(
            next_cells(old(board).board@, old(board).side_to_move, old(board).rules, (mv.spec_from(), mv.spec_to())),
            spec_opposite(old(board).side_to_move),
            old(board).rules,
            (depth - 1) as nat,
        ) <= u64::MAX,
    ensures
        same_position(final(board), old(board)),
        depth < 256 && rep_counts_in(old(board).rep_table@, 256 - depth) ==> final(board).rep_table@
            == old(board).rep_table@,
        nodes == spec_perft(
            next_cells(old(board).board@, old(board).side_to_move, old(board).rules, (mv.spec_from(), mv.spec_to())),
            spec_opposite(old(board).side_to_move),
            old(board).rules,
            (depth - 1) as nat,
        ),
    decreases depth, 0nat,
{
    let ghost b0 = *board;
    proof {
        lemma_legal_move_applicable(board, mv);
        lemma_king_of(board);
    }
    let mut undo = UndoMove::new();
    let r = board.make_move(mv, &mut undo);
    proof {
        assert(r is Ok);
    }
    let ghost mid0 = *board;
    proof {
        if depth < 256 && rep_counts_in(b0.rep_table@, 256 - depth) {
            assert(mid0.rep_table@ == rep_add(b0.rep_table@, mid0.zobrist));
            assert forall|z: u64| #[trigger] mid0.rep_table@.contains_key(z) implies 1 <= mid0.rep_table@[z] < 256 - (
            depth - 1) by {
                if z != mid0.zobrist {
                    assert(b0.rep_table@.contains_key(z));
                }
            }
        }
    }
    let nodes = perft(board, depth - 1);
    let ghost mid = *board;
    proof {
        assert(crate::moves::roundtrip::made(&b0, mv, &mid0, &undo));
        assert(crate::moves::roundtrip::made(&b0, mv, &mid, &undo));
        lemma_make_move_record_applies(&b0, mv, &mid, &undo);
    }
    let r2 = board.unmake_move(&mut undo);
    proof {
        assert(r2 is Ok);
        lemma_unmake_restores_position(&b0, mv, &mid, &undo, board);
        if depth < 256 && rep_counts_in(b0.rep_table@, 256 - depth) {
            assert(mid.rep_table@ == mid0.rep_table@);
            assert(mid.zobrist == mid0.zobrist);
            if b0.rep_table@.contains_key(mid0.zobrist) {
                assert(1 <= b0.rep_table@[mid0.zobrist] < 255);
            }
            lemma_rep_add_remove(b0.rep_table@, mid0.zobrist);
        }
    }
    nodes
}

/// The leaves of the move tree `depth` plies deep: every sequence of legal
/// moves of that length, whether or not the game ended on the way. The board
/// comes back as it was.
pub fn perft(board: &mut Board, depth: u32) -> (nodes: u64)
    requires
        old(board).wf(),
        spec_perft(old(board).board@, old(board).side_to_move, old(board).rules, depth as nat) <= u64::MAX,
    ensures
        same_position(final(board), old(board)),
        depth < 256 && rep_counts_in(old(board).rep_table@, 256 - depth) ==> final(board).rep_table@
            == old(board).rep_table@,
        nodes == spec_perft(old(board).board@, old(board).side_to_move, old(board).rules, depth as nat),
    decreases depth, 1nat,
{
    if depth == 0 {
        return 1;
    }
    let ghost b0 = *board;
    let ghost c0 = board.board@;
    let ghost s0 = board.side_to_move;
    let ghost r0 = board.rules;
    let mut move_gen = MoveGen::new();
    move_gen.generate_moves(board);
    let ghost l = move_pairs(move_gen.listed());
    proof {
        lemma_generated_is_legal_set(board);
        lemma_list_sum_is_perft(c0, s0, r0, depth as nat, l);
    }
    let count = move_gen.count();
    let mut nodes: u64 = 0;
    let mut i: usize = 0;
    proof {
        assert(l.subrange(0, 0) =~= Seq::<(int, int)>::empty());
    }
    while i < count
        invariant
            same_position(board, &b0),
            depth < 256 && rep_counts_in(b0.rep_table@, 256 - depth) ==> board.rep_table@ == b0.rep_table@,
            b0.wf(),
            c0 == b0.board@,
            s0 == b0.side_to_move,
            r0 == b0.rules,
            depth >= 1,
            move_gen.wf(),
            count == move_gen.count,
            l == move_pairs(move_gen.listed()),
            l == spec_generate_moves(&b0),
            forall|k: int| 0 <= k < l.len() ==> in_grid(#[trigger] l[k], b0.size() * b0.size()),
            list_sum(c0, s0, r0, depth as nat, l) == spec_perft(c0, s0, r0, depth as nat),
            spec_perft(c0, s0, r0, depth as nat) <= u64::MAX,
            i <= count,
            nodes == list_sum(c0, s0, r0, depth as nat, l.subrange(0, i as int)),
            forall|p: (int, int)|
                in_grid(p, b0.size() * b0.size()) ==> (spec_is_legal_move(c0, b0.size(), s0, p.0, p.1)
                    <==> #[trigger] l.contains(p)),
        decreases count - i,
    {
        let mv = move_gen.moves[i];
        proof {
            assert(l[i as int] == (mv.spec_from(), mv.spec_to()));
            assert(l.contains(l[i as int]));
            lemma_legal_move_applicable(&b0, mv);
            lemma_list_sum_prefix(c0, s0, r0, depth as nat, l, i as int);
            lemma_list_sum_prefix(c0, s0, r0, depth as nat, l, 0);
            lemma_list_sum_prefix(c0, s0, r0, depth as nat, l, i + 1);
            assert(l.subrange(0, 0) =~= Seq::<(int, int)>::empty());
        }
        let below = count_below(board, mv, depth);
        nodes = nodes + below;
        i += 1;
    }
    proof {
        assert(l.subrange(0, count as int) =~= l);
    }
    nodes
}

/// The leaves below each legal move at the root, in generation order.
pub fn perft_divide(board: &mut Board, depth: u32) -> (r: Vec<(Move, u64)>)
    requires
        old(board).wf(),
        depth >= 1 ==> forall|p: (int, int)|
            spec_is_legal_move(old(board).board@, old(board).size(), old(board).side_to_move, p.0, p.1) ==> #[trigger] spec_perft(
                next_cells(old(board).board@, old(board).side_to_move, old(board).rules, p),
                spec_opposite(old(board).side_to_move),
                old(board).rules,
                (depth - 1) as nat,
            ) <= u64::MAX,
    ensures
        same_position(final(board), old(board)),
        depth < 256 && rep_counts_in(old(board).rep_table@, 256 - depth) ==> final(board).rep_table@
            == old(board).rep_table@,
        depth == 0 ==> r@.len() == 0,
        depth >= 1 ==> counts_total(r@) == spec_perft(
            old(board).board@,
            old(board).side_to_move,
            old(board).rules,
            depth as nat,
        ),
        depth >= 1 ==> r@.len() == spec_generate_moves(old(board)).len(),
        depth >= 1 ==> forall|i: int|
            0 <= i < r@.len() ==> (#[trigger] r@[i]).0.spec_from() == spec_generate_moves(old(board))[i].0
                && r@[i].0.spec_to() == spec_generate_moves(old(board))[i].1 && r@[i].1 == spec_perft(
                next_cells(old(board).board@, old(board).side_to_move, old(board).rules, spec_generate_moves(old(board))[i]),
                spec_opposite(old(board).side_to_move),
                old(board).rules,
                (depth - 1) as nat,
            ),
{
    let mut result: Vec<(Move, u64)> = Vec::new();
    if depth == 0 {
        return result;
    }
    let ghost b0 = *board;
    let mut move_gen = MoveGen::new();
    move_gen.generate_moves(board);
    let ghost l = move_pairs(move_gen.listed());
    proof {
        lemma_generated_is_legal_set(board);
    }
    let count = move_gen.count();
    let mut i: usize = 0;
    while i < count
        invariant
            same_position(board, &b0),
            depth < 256 && rep_counts_in(b0.rep_table@, 256 - depth) ==> board.rep_table@ == b0.rep_table@,
            b0.wf(),
            depth >= 1,
            move_gen.wf(),
            count == move_gen.count,
            l == move_pairs(move_gen.listed()),
            l == spec_generate_moves(&b0),
            forall|k: int| 0 <= k < l.len() ==> in_grid(#[trigger] l[k], b0.size() * b0.size()),
            forall|p: (int, int)|
                in_grid(p, b0.size() * b0.size()) ==> (spec_is_legal_move(b0.board@, b0.size(), b0.side_to_move, p.0, p.1)
                    <==> #[trigger] l.contains(p)),
            forall|p: (int, int)|
                spec_is_legal_move(b0.board@, b0.size(), b0.side_to_move, p.0, p.1) ==> #[trigger] spec_perft(
                    next_cells(b0.board@, b0.side_to_move, b0.rules, p),
                    spec_opposite(b0.side_to_move),
                    b0.rules,
                    (depth - 1) as nat,
                ) <= u64::MAX,
            i <= count,
            result@.len() == i,
            forall|k: int|
                0 <= k < i ==> (#[trigger] result@[k]).0.spec_from() == l[k].0 && result@[k].0.spec_to() == l[k].1
                    && result@[k].1 == spec_perft(
                    next_cells(b0.board@, b0.side_to_move, b0.rules, l[k]),
                    spec_opposite(b0.side_to_move),
                    b0.rules,
                    (depth - 1) as nat,
                ),
        decreases count - i,
    {
        let mv = move_gen.moves[i];
        proof {
            assert(l[i as int] == (mv.spec_from(), mv.spec_to()));
            assert(l.contains(l[i as int]));
            lemma_legal_move_applicable(&b0, mv);
        }
        let nodes = count_below(board, mv, depth);
        result.push((mv, nodes));
        i += 1;
    }
    proof {
        lemma_counts_total_is_list_sum(result@, b0.board@, b0.side_to_move, b0.rules, depth as nat, l);
        lemma_generated_is_legal_set(&b0);
        lemma_list_sum_is_perft(b0.board@, b0.side_to_move, b0.rules, depth as nat, l);
    }
    result
}

/// The sum of the counts of a divided perft.
pub open spec fn counts_total(r: Seq<(Move, u64)>) -> int
    decreases r.len(),
{
    if r.len() == 0 {
        0
    } else {
        counts_total(r.drop_last()) + r.last().1
    }
}

proof fn lemma_counts_total_is_list_sum(
    r: Seq<(Move, u64)>,
    cells: Seq<Piece>,
    side: Side,
    rules: RulesEnum,
    depth: nat,
    l: Seq<(int, int)>,
)
    requires
        depth >= 1,
        r.len() == l.len(),
        forall|i: int|
            0 <= i < r.len() ==> (#[trigger] r[i]).1 == spec_perft(
                next_cells(cells, side, rules, l[i]),
                spec_opposite(side),
                rules,
                (depth - 1) as nat,
            ),
    ensures
        counts_total(r) == list_sum(cells, side, rules, depth, l),
    decreases r.len(),
{
    if r.len() > 0 {
        lemma_counts_total_is_list_sum(r.drop_last(), cells, side, rules, depth, l.drop_last());
    }
}

/// The leaves `depth >= 1` plies deep are the sum, over the generated moves
/// in generation order, of the leaves one ply less deep below the position
/// each move leads to; there is no cut-off at positions where the game ended.
pub proof fn lemma_perft_sums_over_generated_moves(b: &Board, depth: nat)
    requires
        b.wf(),
        depth >= 1,
    ensures
        spec_perft(b.board@, b.side_to_move, b.rules, depth) == list_sum(
            b.board@,
            b.side_to_move,
            b.rules,
            depth,
            spec_generate_moves(b),
        ),
{
    lemma_generated_is_legal_set(b);
    lemma_list_sum_is_perft(b.board@, b.side_to_move, b.rules, depth, spec_generate_moves(b));
}

/// The position a move leads to in the perft count is the position that
/// `make_move` makes: its squares, the other side to move, the same variant.
pub proof fn lemma_make_move_gives_next_cells(b: &Board, mv: Move, after: &Board, undo: &UndoMove)
    requires
        b.wf(),
        crate::moves::make_move::make_move_post(b, mv, after, undo),
    ensures
        after.board@ == next_cells(b.board@, b.side_to_move, b.rules, (mv.spec_from(), mv.spec_to())),
        after.side_to_move == spec_opposite(b.side_to_move),
        after.rules == b.rules,
{
    lemma_king_of(b);
}

} // verus!
