use vstd::prelude::*;
use crate::board::Board;
use crate::board::constants::HOLE;
use crate::board::types::{belongs_to, Piece, Side};
use crate::board::utils::{col_of, lemma_small_board, lemma_square_compose, lemma_square_parts, row_of};
use crate::moves::movegen::{line_dest, line_moves_upto, line_square, list_moves, piece_moves, spec_generate_moves};

verus! {

/// A move of the rules: a piece of `side` slides along its row or column
/// over empty squares and stops where it may.
pub open spec fn spec_is_legal_move(cells: Seq<Piece>, n: int, side: Side, from: int, to: int) -> bool {
    &&& 0 <= from < n * n
    &&& 0 <= to < n * n
    &&& belongs_to(cells[from], side)
    &&& {
        ||| (row_of(to, n) == row_of(from, n) && line_dest(cells, n, from, true, col_of(to, n)))
        ||| (col_of(to, n) == col_of(from, n) && line_dest(cells, n, from, false, row_of(to, n)))
    }
}

/// The moves along one line are the reachable squares of that line.
proof fn lemma_line_moves_contains(cells: Seq<Piece>, n: int, from: int, horizontal: bool, k: int, p: (int, int))
    ensures
        line_moves_upto(cells, n, from, horizontal, k).contains(p) <==> (p.0 == from && exists|j: int|
            0 <= j < k && line_dest(cells, n, from, horizontal, j) && p.1 == #[trigger] line_square(from, horizontal, j, n)),
    decreases k,
{
    if k > 0 {
        lemma_line_moves_contains(cells, n, from, horizontal, k - 1, p);
        let prev = line_moves_upto(cells, n, from, horizontal, k - 1);
        if line_dest(cells, n, from, horizontal, k - 1) {
            let q = (from, line_square(from, horizontal, k - 1, n));
            assert(prev.push(q).contains(p) <==> (prev.contains(p) || p == q)) by {
                if p == q {
                    assert(prev.push(q)[prev.len() as int] == q);
                }
                if prev.contains(p) {
                    let i = choose|i: int| 0 <= i < prev.len() && prev[i] == p;
                    assert(prev.push(q)[i] == p);
                }
                if prev.push(q).contains(p) && p != q {
                    let i = choose|i: int| 0 <= i < prev.push(q).len() && prev.push(q)[i] == p;
                    assert(prev[i] == p);
                }
            }
        }
    }
}

/// The moves of one piece are its moves along its row and its column.
proof fn lemma_piece_moves_contains(cells: Seq<Piece>, n: int, from: int, to: int)
    requires
        3 <= n <= 11,
        0 <= from < n * n,
        0 <= to < n * n,
    ensures
        piece_moves(cells, n, from).contains((from, to)) <==> {
            ||| (row_of(to, n) == row_of(from, n) && line_dest(cells, n, from, true, col_of(to, n)))
            ||| (col_of(to, n) == col_of(from, n) && line_dest(cells, n, from, false, row_of(to, n)))
        },
{
    let p = (from, to);
    let h = line_moves_upto(cells, n, from, true, n);
    let v = line_moves_upto(cells, n, from, false, n);
    lemma_line_moves_contains(cells, n, from, true, n, p);
    lemma_line_moves_contains(cells, n, from, false, n, p);
    assert((h + v).contains(p) <==> (h.contains(p) || v.contains(p))) by {
        if (h + v).contains(p) {
            let i = choose|i: int| 0 <= i < (h + v).len() && (h + v)[i] == p;
            if i < h.len() {
                assert(h[i] == p);
            } else {
                assert(v[i - h.len()] == p);
            }
        }
        if h.contains(p) {
            let i = choose|i: int| 0 <= i < h.len() && h[i] == p;
            assert((h + v)[i] == p);
        }
        if v.contains(p) {
            let i = choose|i: int| 0 <= i < v.len() && v[i] == p;
            assert((h + v)[h.len() + i] == p);
        }
    }
    lemma_square_parts(from, n);
    lemma_square_parts(to, n);
    let r = row_of(from, n);
    let c = col_of(from, n);
    if h.contains(p) {
        let j = choose|j: int| 0 <= j < n && line_dest(cells, n, from, true, j) && p.1 == #[trigger] line_square(from, true, j, n);
        lemma_square_compose(r, j, n);
    }
    if v.contains(p) {
        let j = choose|j: int| 0 <= j < n && line_dest(cells, n, from, false, j) && p.1 == #[trigger] line_square(from, false, j, n);
        lemma_square_compose(j, c, n);
    }
    if row_of(to, n) == r && line_dest(cells, n, from, true, col_of(to, n)) {
        assert(line_square(from, true, col_of(to, n), n) == to);
    }
    if col_of(to, n) == c && line_dest(cells, n, from, false, row_of(to, n)) {
        assert(line_square(from, false, row_of(to, n), n) == to);
    }
}

/// Every move of a list of pieces starts on a listed square, and a listed
/// piece contributes all its moves.
#[verifier::spinoff_prover]
proof fn lemma_list_moves_contains(cells: Seq<Piece>, n: int, list: Seq<usize>, p: (int, int))
    ensures
        list_moves(cells, n, list).contains(p) <==> exists|i: int|
            0 <= i < list.len() && p.0 == list[i] as int && #[trigger] piece_moves(cells, n, list[i] as int).contains(p),
    decreases list.len(),
{
    if list.len() > 0 {
        let init = list.drop_last();
        lemma_list_moves_contains(cells, n, init, p);
        let a = list_moves(cells, n, init);
        let last = list.last() as int;
        let b = piece_moves(cells, n, last);
        lemma_piece_moves_start(cells, n, last, p);
        if (a + b).contains(p) {
            let i = choose|i: int| 0 <= i < (a + b).len() && (a + b)[i] == p;
            if i < a.len() {
                assert(a[i] == p);
                let t = choose|t: int|
                    0 <= t < init.len() && p.0 == init[t] as int && #[trigger] piece_moves(cells, n, init[t] as int).contains(p);
                assert(list[t] == init[t]);
            } else {
                assert(b[i - a.len()] == p);
                assert(list[list.len() - 1] as int == last);
            }
        }
        if exists|i: int| 0 <= i < list.len() && p.0 == list[i] as int && #[trigger] piece_moves(cells, n, list[i] as int).contains(p) {
            let i = choose|i: int| 0 <= i < list.len() && p.0 == list[i] as int && #[trigger] piece_moves(cells, n, list[i] as int).contains(p);
            if i < list.len() - 1 {
                assert(init[i] == list[i]);
                assert(a.contains(p));
                let t = choose|t: int| 0 <= t < a.len() && a[t] == p;
                assert((a + b)[t] == p);
            } else {
                let t = choose|t: int| 0 <= t < b.len() && b[t] == p;
                assert((a + b)[a.len() + t] == p);
            }
        }
    }
}

/// A piece's moves start on its square.
proof fn lemma_piece_moves_start(cells: Seq<Piece>, n: int, from: int, p: (int, int))
    ensures
        piece_moves(cells, n, from).contains(p) ==> p.0 == from,
{
    let h = line_moves_upto(cells, n, from, true, n);
    let v = line_moves_upto(cells, n, from, false, n);
    lemma_line_moves_contains(cells, n, from, true, n, p);
    lemma_line_moves_contains(cells, n, from, false, n, p);
    if (h + v).contains(p) {
        let i = choose|i: int| 0 <= i < (h + v).len() && (h + v)[i] == p;
        if i < h.len() {
            assert(h[i] == p);
        } else {
            assert(v[i - h.len()] == p);
        }
    }
}

/// `generate_moves` lists exactly the moves of the rules for the side to move.
pub proof fn lemma_generate_moves_legal(b: &Board, from: int, to: int)
    requires
        b.wf(),
    ensures
        spec_generate_moves(b).contains((from, to)) <==> spec_is_legal_move(
            b.board@,
            b.size(),
            b.side_to_move,
            from,
            to,
        ),
{
    let n = b.size();
    let c = b.board@;
    let p = (from, to);
    lemma_small_board(n);
    let atk = b.attackers@.subrange(0, b.attackers_count as int);
    let dfd = b.defenders@.subrange(0, b.defenders_count as int);
    if b.side_to_move == Side::ATTACKERS {
        lemma_list_moves_contains(c, n, atk, p);
        if spec_generate_moves(b).contains(p) {
            let i = choose|i: int| 0 <= i < atk.len() && p.0 == atk[i] as int && #[trigger] piece_moves(c, n, atk[i] as int).contains(p);
            assert(atk[i] == b.attackers@[i]);
            lemma_piece_moves_to(c, n, from, p);
            lemma_piece_moves_contains(c, n, from, to);
        }
        if spec_is_legal_move(c, n, b.side_to_move, from, to) {
            assert(c[from] == Piece::ATTACKER);
            let i = b.piece_index_by_square@[from] as int;
            assert(atk[i] == b.attackers@[i]);
            lemma_piece_moves_contains(c, n, from, to);
        }
    } else {
        let km = if b.king_sq != HOLE { piece_moves(c, n, b.king_sq as int) } else { Seq::<(int, int)>::empty() };
        let dm = list_moves(c, n, dfd);
        lemma_list_moves_contains(c, n, dfd, p);
        assert((dm + km).contains(p) <==> (dm.contains(p) || km.contains(p))) by {
            if (dm + km).contains(p) {
                let i = choose|i: int| 0 <= i < (dm + km).len() && (dm + km)[i] == p;
                if i < dm.len() {
                    assert(dm[i] == p);
                } else {
                    assert(km[i - dm.len()] == p);
                }
            }
            if dm.contains(p) {
                let i = choose|i: int| 0 <= i < dm.len() && dm[i] == p;
                assert((dm + km)[i] == p);
            }
            if km.contains(p) {
                let i = choose|i: int| 0 <= i < km.len() && km[i] == p;
                assert((dm + km)[dm.len() + i] == p);
            }
        }
        if dm.contains(p) {
            let i = choose|i: int| 0 <= i < dfd.len() && p.0 == dfd[i] as int && #[trigger] piece_moves(c, n, dfd[i] as int).contains(p);
            assert(dfd[i] == b.defenders@[i]);
            lemma_piece_moves_to(c, n, from, p);
            lemma_piece_moves_contains(c, n, from, to);
        }
        if km.contains(p) {
            lemma_piece_moves_start(c, n, b.king_sq as int, p);
            lemma_piece_moves_to(c, n, from, p);
            lemma_piece_moves_contains(c, n, from, to);
        }
        if spec_is_legal_move(c, n, b.side_to_move, from, to) {
            lemma_piece_moves_contains(c, n, from, to);
            if c[from] == Piece::DEFENDER {
                let i = b.piece_index_by_square@[from] as int;
                assert(dfd[i] == b.defenders@[i]);
            } else {
                assert(c[from] == Piece::KING);
                assert(b.king_sq == from);
            }
        }
    }
}

/// A piece's moves end on the board.
proof fn lemma_piece_moves_to(cells: Seq<Piece>, n: int, from: int, p: (int, int))
    requires
        3 <= n <= 11,
        0 <= from < n * n,
    ensures
        piece_moves(cells, n, from).contains(p) ==> 0 <= p.1 < n * n,
{
    let h = line_moves_upto(cells, n, from, true, n);
    let v = line_moves_upto(cells, n, from, false, n);
    lemma_line_moves_contains(cells, n, from, true, n, p);
    lemma_line_moves_contains(cells, n, from, false, n, p);
    lemma_square_parts(from, n);
    if (h + v).contains(p) {
        let i = choose|i: int| 0 <= i < (h + v).len() && (h + v)[i] == p;
        if i < h.len() {
            assert(h[i] == p);
            let j = choose|j: int| 0 <= j < n && line_dest(cells, n, from, true, j) && p.1 == #[trigger] line_square(from, true, j, n);
            lemma_square_compose(row_of(from, n), j, n);
        } else {
            assert(v[i - h.len()] == p);
            let j = choose|j: int| 0 <= j < n && line_dest(cells, n, from, false, j) && p.1 == #[trigger] line_square(from, false, j, n);
            lemma_square_compose(j, col_of(from, n), n);
        }
    }
}


/// No pair is listed twice.
pub open spec fn pairs_distinct(l: Seq<(int, int)>) -> bool {
    forall|i: int, j: int| 0 <= i < j < l.len() ==> l[i] != l[j]
}

proof fn lemma_concat_distinct(a: Seq<(int, int)>, b: Seq<(int, int)>)
    requires
        pairs_distinct(a),
        pairs_distinct(b),
        forall|i: int, j: int| 0 <= i < a.len() && 0 <= j < b.len() ==> a[i] != b[j],
    ensures
        pairs_distinct(a + b),
{
    assert forall|i: int, j: int| 0 <= i < j < (a + b).len() implies (a + b)[i] != (a + b)[j] by {
        if j < a.len() {
            assert((a + b)[i] == a[i] && (a + b)[j] == a[j]);
        } else if i >= a.len() {
            assert((a + b)[i] == b[i - a.len()] && (a + b)[j] == b[j - a.len()]);
        } else {
            assert((a + b)[i] == a[i] && (a + b)[j] == b[j - a.len()]);
        }
    }
}

/// The moves along a line go to increasing positions on it.
proof fn lemma_line_moves_sorted(cells: Seq<Piece>, n: int, from: int, horizontal: bool, k: int)
    requires
        3 <= n <= 11,
        0 <= from < n * n,
        0 <= k <= n,
    ensures
        forall|i: int|
            0 <= i < line_moves_upto(cells, n, from, horizontal, k).len() ==> {
                let p = #[trigger] line_moves_upto(cells, n, from, horizontal, k)[i];
                &&& p.0 == from
                &&& exists|j: int| 0 <= j < k && line_dest(cells, n, from, horizontal, j) && p.1 == line_square(from, horizontal, j, n)
            },
        forall|i: int, i2: int|
            0 <= i < i2 < line_moves_upto(cells, n, from, horizontal, k).len() ==> line_moves_upto(
                cells,
                n,
                from,
                horizontal,
                k,
            )[i].1 < line_moves_upto(cells, n, from, horizontal, k)[i2].1,
    decreases k,
{
    if k > 0 {
        lemma_line_moves_sorted(cells, n, from, horizontal, k - 1);
        let prev = line_moves_upto(cells, n, from, horizontal, k - 1);
        let cur = line_moves_upto(cells, n, from, horizontal, k);
        if line_dest(cells, n, from, horizontal, k - 1) {
            let q = (from, line_square(from, horizontal, k - 1, n));
            assert(cur == prev.push(q));
            assert forall|i: int| 0 <= i < prev.len() implies #[trigger] prev[i].1 < q.1 by {
                let j = choose|j: int| 0 <= j < k - 1 && line_dest(cells, n, from, horizontal, j) && prev[i].1 == line_square(from, horizontal, j, n);
                lemma_square_parts(from, n);
                if horizontal {
                } else {
                    assert(j * n < (k - 1) * n) by (nonlinear_arith)
                        requires
                            j < k - 1,
                            n > 0,
                    ;
                }
            }
            assert forall|i: int| 0 <= i < cur.len() implies {
                let p = #[trigger] cur[i];
                &&& p.0 == from
                &&& exists|j: int| 0 <= j < k && line_dest(cells, n, from, horizontal, j) && p.1 == line_square(from, horizontal, j, n)
            } by {
                if i < prev.len() {
                    assert(cur[i] == prev[i]);
                    let j = choose|j: int| 0 <= j < k - 1 && line_dest(cells, n, from, horizontal, j) && prev[i].1 == line_square(from, horizontal, j, n);
                } else {
                    assert(cur[i] == q);
                }
            }
            assert forall|i: int, i2: int| 0 <= i < i2 < cur.len() implies cur[i].1 < cur[i2].1 by {
                if i2 < prev.len() {
                    assert(cur[i] == prev[i] && cur[i2] == prev[i2]);
                } else {
                    assert(cur[i] == prev[i] && cur[i2] == q);
                }
            }
        }
    }
}

/// A piece's moves are distinct and start on its square.
proof fn lemma_piece_moves_distinct(cells: Seq<Piece>, n: int, from: int)
    requires
        3 <= n <= 11,
        0 <= from < n * n,
    ensures
        pairs_distinct(piece_moves(cells, n, from)),
        forall|i: int| 0 <= i < piece_moves(cells, n, from).len() ==> (#[trigger] piece_moves(cells, n, from)[i]).0 == from,
{
    let h = line_moves_upto(cells, n, from, true, n);
    let v = line_moves_upto(cells, n, from, false, n);
    lemma_line_moves_sorted(cells, n, from, true, n);
    lemma_line_moves_sorted(cells, n, from, false, n);
    lemma_square_parts(from, n);
    let r = row_of(from, n);
    let c = col_of(from, n);
    assert forall|i: int, j: int| 0 <= i < h.len() && 0 <= j < v.len() implies h[i] != v[j] by {
        let a = choose|a: int| 0 <= a < n && line_dest(cells, n, from, true, a) && h[i].1 == line_square(from, true, a, n);
        let b = choose|b: int| 0 <= b < n && line_dest(cells, n, from, false, b) && v[j].1 == line_square(from, false, b, n);
        lemma_square_compose(r, a, n);
        lemma_square_compose(b, c, n);
    }
    lemma_concat_distinct(h, v);
    assert forall|i: int| 0 <= i < (h + v).len() implies (#[trigger] (h + v)[i]).0 == from by {
        if i < h.len() {
            assert((h + v)[i] == h[i]);
        } else {
            assert((h + v)[i] == v[i - h.len()]);
        }
    }
}

/// The moves of distinct pieces are distinct.
proof fn lemma_list_moves_distinct(cells: Seq<Piece>, n: int, list: Seq<usize>)
    requires
        3 <= n <= 11,
        forall|i: int| 0 <= i < list.len() ==> #[trigger] list[i] < n * n,
        forall|i: int, j: int| 0 <= i < j < list.len() ==> list[i] != list[j],
    ensures
        pairs_distinct(list_moves(cells, n, list)),
        forall|i: int|
            0 <= i < list_moves(cells, n, list).len() ==> exists|k: int|
                0 <= k < list.len() && (#[trigger] list_moves(cells, n, list)[i]).0 == list[k] as int,
    decreases list.len(),
{
    if list.len() > 0 {
        let init = list.drop_last();
        let last = list.last();
        assert forall|i: int| 0 <= i < init.len() implies #[trigger] init[i] < n * n by {
            assert(init[i] == list[i]);
        }
        assert forall|i: int, j: int| 0 <= i < j < init.len() implies init[i] != init[j] by {
            assert(init[i] == list[i] && init[j] == list[j]);
        }
        lemma_list_moves_distinct(cells, n, init);
        lemma_piece_moves_distinct(cells, n, last as int);
        let a = list_moves(cells, n, init);
        let b = piece_moves(cells, n, last as int);
        assert forall|i: int, j: int| 0 <= i < a.len() && 0 <= j < b.len() implies a[i] != b[j] by {
            let k = choose|k: int| 0 <= k < init.len() && a[i].0 == init[k] as int;
            assert(list[k] == init[k]);
            assert(list[k] != list[list.len() - 1]);
        }
        lemma_concat_distinct(a, b);
        assert forall|i: int| 0 <= i < (a + b).len() implies exists|k: int|
            0 <= k < list.len() && (#[trigger] (a + b)[i]).0 == list[k] as int by {
            if i < a.len() {
                assert((a + b)[i] == a[i]);
                let k = choose|k: int| 0 <= k < init.len() && a[i].0 == init[k] as int;
                assert(list[k] == init[k]);
            } else {
                assert((a + b)[i] == b[i - a.len()]);
                assert(list[list.len() - 1] == last);
            }
        }
    }
}

/// `generate_moves` lists no move twice.
pub proof fn lemma_generate_moves_distinct(b: &Board)
    requires
        b.wf(),
    ensures
        pairs_distinct(spec_generate_moves(b)),
{
    let n = b.size();
    let c = b.board@;
    lemma_small_board(n);
    if b.side_to_move == Side::ATTACKERS {
        let atk = b.attackers@.subrange(0, b.attackers_count as int);
        assert forall|i: int| 0 <= i < atk.len() implies #[trigger] atk[i] < n * n by {
            assert(atk[i] == b.attackers@[i]);
        }
        assert forall|i: int, j: int| 0 <= i < j < atk.len() implies atk[i] != atk[j] by {
            assert(atk[i] == b.attackers@[i] && atk[j] == b.attackers@[j]);
            assert(b.piece_index_by_square@[atk[i] as int] == i);
        }
        lemma_list_moves_distinct(c, n, atk);
    } else {
        let dfd = b.defenders@.subrange(0, b.defenders_count as int);
        assert forall|i: int| 0 <= i < dfd.len() implies #[trigger] dfd[i] < n * n by {
            assert(dfd[i] == b.defenders@[i]);
        }
        assert forall|i: int, j: int| 0 <= i < j < dfd.len() implies dfd[i] != dfd[j] by {
            assert(dfd[i] == b.defenders@[i] && dfd[j] == b.defenders@[j]);
            assert(b.piece_index_by_square@[dfd[i] as int] == i);
        }
        lemma_list_moves_distinct(c, n, dfd);
        let dm = list_moves(c, n, dfd);
        if b.king_sq != HOLE {
            let k = b.king_sq as int;
            lemma_piece_moves_distinct(c, n, k);
            let km = piece_moves(c, n, k);
            assert forall|i: int, j: int| 0 <= i < dm.len() && 0 <= j < km.len() implies dm[i] != km[j] by {
                let t = choose|t: int| 0 <= t < dfd.len() && dm[i].0 == dfd[t] as int;
                assert(dfd[t] == b.defenders@[t]);
                assert(c[dfd[t] as int] == Piece::DEFENDER);
            }
            lemma_concat_distinct(dm, km);
        } else {
            assert(dm + Seq::<(int, int)>::empty() =~= dm);
        }
    }
}

} // verus!
