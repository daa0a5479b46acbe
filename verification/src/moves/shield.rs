use vstd::prelude::*;
use crate::board::Board;
use crate::board::constants::HOLE;
use crate::board::rules::spec_has_shield_walls;
use crate::board::types::{belongs_to, OptionalSquare, Piece, Side, Square};
use crate::board::utils::{
    col_of, get_square, lemma_small_board, lemma_square_compose, lemma_square_parts, on_board,
    row_of, square_at,
};
use crate::moves::undo::{CapturedPiece, UndoMove, MAX_CAPTURED_PIECES};

verus! {

/// The four edges of the board, as seen by the shield-wall rule.
#[derive(Clone, Copy, PartialEq, Eq, Debug, Structural)]
pub enum ShieldSide {
    Top,
    Bottom,
    Left,
    Right,
}

/// The `k`-th square along an edge, counted from the corner where the walk starts:
/// the top and bottom edges are walked from the left, the side edges from the top.
pub open spec fn edge_square(which: ShieldSide, k: int, n: int) -> int {
    match which {
        ShieldSide::Top => square_at(n - 1, k, n),
        ShieldSide::Bottom => square_at(0, k, n),
        ShieldSide::Left => square_at(n - 1 - k, 0, n),
        ShieldSide::Right => square_at(n - 1 - k, n - 1, n),
    }
}

/// The square just inside the board from an edge square.
pub open spec fn roof_square(which: ShieldSide, sq: int, n: int) -> int {
    match which {
        ShieldSide::Top => sq - n,
        ShieldSide::Bottom => sq + n,
        ShieldSide::Left => sq + 1,
        ShieldSide::Right => sq - 1,
    }
}

/// The state of a walk along an edge: positions already taken, the current run
/// of enemy pieces under a friendly roof, whether a run may grow, and the
/// square of the friendly piece that opened the run.
pub type WalkState = (Seq<int>, Seq<int>, bool, int);

pub open spec fn walk_step(
    st: WalkState,
    cells: Seq<Piece>,
    n: int,
    side: Side,
    which: ShieldSide,
    last_to: int,
    k: int,
) -> WalkState {
    let (res, run, started, start) = st;
    let sq = edge_square(which, k, n);
    if k == n - 1 {
        // The far corner closes the run without the flanking condition.
        if run.len() > 1 {
            (res + run, Seq::empty(), started, start)
        } else {
            st
        }
    } else if cells[sq] == Piece::EMPTY {
        (res, Seq::empty(), false, start)
    } else if belongs_to(cells[sq], side) {
        let flanked = last_to == start || last_to == sq;
        let res2 = if run.len() > 1 && flanked { res + run } else { res };
        let run2 = if run.len() > 1 { Seq::empty() } else { run };
        (res2, run2, true, sq)
    } else if !started {
        st
    } else if belongs_to(cells[roof_square(which, sq, n)], side) {
        (res, run.push(k), started, start)
    } else {
        (res, Seq::empty(), false, start)
    }
}

/// The walk after visiting the edge positions `1..k`.
pub open spec fn walk(
    cells: Seq<Piece>,
    n: int,
    side: Side,
    which: ShieldSide,
    last_to: int,
    k: int,
) -> WalkState
    decreases k,
{
    if k <= 1 {
        (Seq::empty(), Seq::empty(), true, 0)
    } else {
        walk_step(walk(cells, n, side, which, last_to, k - 1), cells, n, side, which, last_to, k - 1)
    }
}

/// Positions along the edge `which` whose pieces `side` takes with a shield wall.
pub open spec fn shield_line_captures(
    cells: Seq<Piece>,
    n: int,
    side: Side,
    which: ShieldSide,
    last_to: int,
) -> Seq<int> {
    walk(cells, n, side, which, last_to, n).0
}

/// Takes the pieces on the given squares off, in order, except a king; the
/// second component records what was taken.
pub open spec fn remove_listed(cells: Seq<Piece>, squares: Seq<int>) -> (Seq<Piece>, Seq<CapturedPiece>)
    decreases squares.len(),
{
    if squares.len() == 0 {
        (cells, Seq::empty())
    } else {
        let (c, caps) = remove_listed(cells, squares.drop_last());
        let sq = squares.last();
        if c[sq] == Piece::KING {
            (c, caps)
        } else {
            (c.update(sq, Piece::EMPTY), caps.push(CapturedPiece { square: sq as usize, piece: c[sq] }))
        }
    }
}

pub open spec fn edge_squares(which: ShieldSide, ks: Seq<int>, n: int) -> Seq<int> {
    ks.map_values(|k: int| edge_square(which, k, n))
}

/// The result of the shield-wall rule along one edge.
pub open spec fn spec_captures_on_side(
    cells: Seq<Piece>,
    n: int,
    side: Side,
    which: ShieldSide,
    last_to: int,
) -> (Seq<Piece>, Seq<CapturedPiece>) {
    remove_listed(cells, edge_squares(which, shield_line_captures(cells, n, side, which, last_to), n))
}

/// Positions in a walk state are increasing and below `k`, and hold enemy pieces.
pub open spec fn walk_inv(st: WalkState, cells: Seq<Piece>, n: int, side: Side, which: ShieldSide, k: int) -> bool {
    let all = st.0 + st.1;
    &&& forall|i: int, j: int| 0 <= i < j < all.len() ==> all[i] < all[j]
    &&& forall|i: int|
        0 <= i < all.len() ==> {
            &&& 1 <= #[trigger] all[i] < k
            &&& all[i] < n - 1
            &&& cells[edge_square(which, all[i], n)] != Piece::EMPTY
            &&& !belongs_to(cells[edge_square(which, all[i], n)], side)
        }
}

pub proof fn lemma_walk_inv(
    cells: Seq<Piece>,
    n: int,
    side: Side,
    which: ShieldSide,
    last_to: int,
    k: int,
)
    requires
        3 <= n <= 11,
        1 <= k <= n,
        cells.len() == n * n,
    ensures
        walk_inv(walk(cells, n, side, which, last_to, k), cells, n, side, which, k),
    decreases k,
{
    if k > 1 {
        lemma_walk_inv(cells, n, side, which, last_to, k - 1);
        let st = walk(cells, n, side, which, last_to, k - 1);
        let st2 = walk(cells, n, side, which, last_to, k);
        let all = st.0 + st.1;
        let all2 = st2.0 + st2.1;
        assert forall|i: int, j: int| 0 <= i < j < all2.len() implies all2[i] < all2[j] by {
            let sq = edge_square(which, k - 1, n);
            if k - 1 == n - 1 {
                if st.1.len() > 1 {
                    assert(all2 =~= all);
                }
            } else if cells[sq] == Piece::EMPTY {
                assert(all2 =~= st.0);
                assert(all2[i] == all[i] && all2[j] == all[j]);
            } else if belongs_to(cells[sq], side) {
                if st.1.len() > 1 && (last_to == st.3 || last_to == sq) {
                    assert(all2 =~= all);
                } else if st.1.len() > 1 {
                    assert(all2 =~= st.0);
                    assert(all2[i] == all[i] && all2[j] == all[j]);
                } else {
                    assert(all2 =~= all);
                }
            } else if !st.2 {
            } else if belongs_to(cells[roof_square(which, sq, n)], side) {
                assert(all2 =~= all.push(k - 1));
            } else {
                assert(all2 =~= st.0);
                assert(all2[i] == all[i] && all2[j] == all[j]);
            }
        }
        assert forall|i: int| 0 <= i < all2.len() implies {
            &&& 1 <= #[trigger] all2[i] < k
            &&& all2[i] < n - 1
            &&& cells[edge_square(which, all2[i], n)] != Piece::EMPTY
            &&& !belongs_to(cells[edge_square(which, all2[i], n)], side)
        } by {
            let sq = edge_square(which, k - 1, n);
            if k - 1 == n - 1 {
                if st.1.len() > 1 {
                    assert(all2 =~= all);
                }
            } else if cells[sq] == Piece::EMPTY {
                assert(all2 =~= st.0);
                assert(all2[i] == all[i]);
            } else if belongs_to(cells[sq], side) {
                if st.1.len() > 1 && (last_to == st.3 || last_to == sq) {
                    assert(all2 =~= all);
                } else if st.1.len() > 1 {
                    assert(all2 =~= st.0);
                    assert(all2[i] == all[i]);
                } else {
                    assert(all2 =~= all);
                }
            } else if !st.2 {
            } else if belongs_to(cells[roof_square(which, sq, n)], side) {
                assert(all2 =~= all.push(k - 1));
            } else {
                assert(all2 =~= st.0);
                assert(all2[i] == all[i]);
            }
        }
    }
}

/// Distinct edge positions are distinct squares, on the board.
pub proof fn lemma_edge_square(which: ShieldSide, k: int, j: int, n: int)
    requires
        3 <= n <= 11,
        0 <= k < n,
        0 <= j < n,
    ensures
        on_board(edge_square(which, k, n), n),
        k != j ==> edge_square(which, k, n) != edge_square(which, j, n),
        1 <= k < n - 1 ==> on_board(roof_square(which, edge_square(which, k, n), n), n),
{
    let r = match which {
        ShieldSide::Top => n - 1,
        ShieldSide::Bottom => 0,
        ShieldSide::Left => n - 1 - k,
        ShieldSide::Right => n - 1 - k,
    };
    let c = match which {
        ShieldSide::Top => k,
        ShieldSide::Bottom => k,
        ShieldSide::Left => 0,
        ShieldSide::Right => n - 1,
    };
    let r2 = match which {
        ShieldSide::Top => n - 1,
        ShieldSide::Bottom => 0,
        ShieldSide::Left => n - 1 - j,
        ShieldSide::Right => n - 1 - j,
    };
    let c2 = match which {
        ShieldSide::Top => j,
        ShieldSide::Bottom => j,
        ShieldSide::Left => 0,
        ShieldSide::Right => n - 1,
    };
    lemma_square_compose(r, c, n);
    lemma_square_compose(r2, c2, n);
    if 1 <= k < n - 1 {
        let sq = square_at(r, c, n);
        match which {
            ShieldSide::Top => {
                lemma_square_compose(n - 2, k, n);
                assert(square_at(n - 2, k, n) == sq - n) by (nonlinear_arith)
                    requires
                        sq == (n - 1) * n + k,
                ;
            },
            ShieldSide::Bottom => {
                lemma_square_compose(1, k, n);
            },
            ShieldSide::Left => {
                lemma_square_compose(n - 1 - k, 1, n);
            },
            ShieldSide::Right => {
                lemma_square_compose(n - 1 - k, n - 2, n);
            },
        }
    }
}

} // verus!

verus! {

/// What `remove_listed` leaves on each square, when the squares listed are distinct.
pub proof fn lemma_remove_listed(cells: Seq<Piece>, squares: Seq<int>)
    requires
        forall|i: int, j: int| 0 <= i < j < squares.len() ==> squares[i] != squares[j],
        forall|i: int| 0 <= i < squares.len() ==> 0 <= #[trigger] squares[i] < cells.len(),
        cells.len() <= 256,
    ensures
        remove_listed(cells, squares).0.len() == cells.len(),
        forall|s: int|
            0 <= s < cells.len() ==> #[trigger] remove_listed(cells, squares).0[s] == if squares.contains(s)
                && cells[s] != Piece::KING {
                Piece::EMPTY
            } else {
                cells[s]
            },
        forall|i: int|
            0 <= i < remove_listed(cells, squares).1.len() ==> {
                let cp = #[trigger] remove_listed(cells, squares).1[i];
                &&& squares.contains(cp.square as int)
                &&& cp.piece == cells[cp.square as int]
                &&& cp.piece != Piece::KING
            },
        remove_listed(cells, squares).1.len() <= squares.len(),
    decreases squares.len(),
{
    if squares.len() > 0 {
        let init = squares.drop_last();
        lemma_remove_listed(cells, init);
        let (c, caps) = remove_listed(cells, init);
        let sq = squares.last();
        assert(!init.contains(sq)) by {
            if init.contains(sq) {
                let i = choose|i: int| 0 <= i < init.len() && init[i] == sq;
                assert(squares[i] == squares[squares.len() - 1]);
            }
        }
        assert forall|s: int| 0 <= s < cells.len() implies #[trigger] remove_listed(cells, squares).0[s]
            == if squares.contains(s) && cells[s] != Piece::KING {
            Piece::EMPTY
        } else {
            cells[s]
        } by {
            assert(squares.contains(s) <==> (init.contains(s) || s == sq)) by {
                if squares.contains(s) {
                    let i = choose|i: int| 0 <= i < squares.len() && squares[i] == s;
                    if i < squares.len() - 1 {
                        assert(init[i] == s);
                    }
                }
                if init.contains(s) {
                    let i = choose|i: int| 0 <= i < init.len() && init[i] == s;
                    assert(squares[i] == s);
                }
            }
        }
        assert forall|i: int| 0 <= i < remove_listed(cells, squares).1.len() implies {
            let cp = #[trigger] remove_listed(cells, squares).1[i];
            &&& squares.contains(cp.square as int)
            &&& cp.piece == cells[cp.square as int]
            &&& cp.piece != Piece::KING
        } by {
            let caps2 = remove_listed(cells, squares).1;
            if i < caps.len() {
                assert(caps2[i] == caps[i]);
                let cp = caps[i];
                let j = choose|j: int| 0 <= j < init.len() && init[j] == cp.square as int;
                assert(squares[j] == cp.square as int);
            } else {
                assert(squares[squares.len() - 1] == sq);
                assert(0 <= sq < cells.len());
                assert(caps2[i] == CapturedPiece { square: sq as usize, piece: c[sq] });
                assert(squares.contains(sq));
            }
        }
    }
}

pub fn edge_square_exec(which: ShieldSide, k: usize, n: usize) -> (sq: Square)
    requires
        3 <= n <= 11,
        k < n,
    ensures
        sq == edge_square(which, k as int, n as int),
{
    proof {
        lemma_small_board(n as int);
        lemma_edge_square(which, k as int, k as int, n as int);
    }
    match which {
        ShieldSide::Top => get_square(n - 1, k, n),
        ShieldSide::Bottom => get_square(0, k, n),
        ShieldSide::Left => get_square(n - 1 - k, 0, n),
        ShieldSide::Right => get_square(n - 1 - k, n - 1, n),
    }
}

fn roof_square_exec(which: ShieldSide, sq: Square, n: usize, k: usize) -> (r: Square)
    requires
        3 <= n <= 11,
        1 <= k < n - 1,
        sq == edge_square(which, k as int, n as int),
    ensures
        r == roof_square(which, sq as int, n as int),
{
    proof {
        lemma_edge_square(which, k as int, k as int, n as int);
        lemma_small_board(n as int);
    }
    match which {
        ShieldSide::Top => sq - n,
        ShieldSide::Bottom => sq + n,
        ShieldSide::Left => sq + 1,
        ShieldSide::Right => sq - 1,
    }
}

fn is_friend(board: &Board, side: Side, sq: Square) -> (b: bool)
    requires
        board.wf(),
        sq < board.sqs(),
    ensures
        b == belongs_to(board.board@[sq as int], side),
{
    match board.board[sq] {
        Piece::ATTACKER => side == Side::ATTACKERS,
        Piece::DEFENDER => side == Side::DEFENDERS,
        Piece::KING => side == Side::DEFENDERS,
        Piece::EMPTY => false,
    }
}

pub open spec fn ints(v: Seq<usize>) -> Seq<int> {
    v.map_values(|x: usize| x as int)
}

fn add_to_undo_and_remove(sq: Square, board: &mut Board, undo: &mut UndoMove)
    requires
        old(board).wf(),
        sq < old(board).sqs(),
        old(board).board@[sq as int] != Piece::EMPTY,
        old(undo).wf(),
        old(undo).captured_pieces_count < MAX_CAPTURED_PIECES,
    ensures
        old(board).board@[sq as int] == Piece::KING ==> *final(board) == *old(board) && *final(undo)
            == *old(undo),
        old(board).board@[sq as int] != Piece::KING ==> {
            &&& final(board).wf()
            &&& final(board).board@ == old(board).board@.update(sq as int, Piece::EMPTY)
            &&& final(board).same_except_cells(old(board))
            &&& final(board).king_sq == old(board).king_sq
            &&& final(undo).wf()
            &&& final(undo).captures() == old(undo).captures().push(
                CapturedPiece { square: sq, piece: old(board).board@[sq as int] },
            )
            &&& final(undo).mv == old(undo).mv
            &&& final(undo).last_move_to == old(undo).last_move_to
            &&& final(undo).was_capture == old(undo).was_capture
            &&& final(undo).moved_piece == old(undo).moved_piece
        },
{
    if board.board[sq] == Piece::KING {
        return;
    }

    let piece = board.board[sq];
    undo.add_captured_piece(CapturedPiece { square: sq, piece });
    board.clear_piece(sq);
}

/// The squares of a removal list; the walk positions are increasing, so the
/// squares are distinct and on the board.
pub proof fn lemma_edge_list(which: ShieldSide, ks: Seq<int>, n: int)
    requires
        3 <= n <= 11,
        forall|i: int, j: int| 0 <= i < j < ks.len() ==> ks[i] < ks[j],
        forall|i: int| 0 <= i < ks.len() ==> 1 <= #[trigger] ks[i] < n - 1,
    ensures
        forall|i: int, j: int|
            0 <= i < j < ks.len() ==> edge_squares(which, ks, n)[i] != edge_squares(which, ks, n)[j],
        forall|i: int|
            0 <= i < ks.len() ==> 0 <= #[trigger] edge_squares(which, ks, n)[i] < n * n,
{
    assert forall|i: int, j: int| 0 <= i < j < ks.len() implies edge_squares(which, ks, n)[i]
        != edge_squares(which, ks, n)[j] by {
        lemma_edge_square(which, ks[i], ks[j], n);
    }
    assert forall|i: int| 0 <= i < ks.len() implies 0 <= #[trigger] edge_squares(which, ks, n)[i]
        < n * n by {
        lemma_edge_square(which, ks[i], ks[i], n);
    }
}

fn append_indices(res: &mut Vec<usize>, run: &Vec<usize>)
    ensures
        ints(final(res)@) == ints(old(res)@) + ints(run@),
{
    let mut i: usize = 0;
    while i < run.len()
        invariant
            i <= run@.len(),
            ints(res@) == ints(old(res)@) + ints(run@.subrange(0, i as int)),
        decreases run@.len() - i,
    {
        let ghost prev = res@;
        res.push(run[i]);
        proof {
            assert(ints(res@) =~= ints(prev).push(run@[i as int] as int));
            assert(run@.subrange(0, i + 1) =~= run@.subrange(0, i as int).push(run@[i as int]));
            assert(ints(run@.subrange(0, i + 1)) =~= ints(run@.subrange(0, i as int)).push(run@[i as int] as int));
            assert(ints(res@) =~= ints(old(res)@) + ints(run@.subrange(0, i + 1)));
        }
        i += 1;
    }
    proof {
        assert(run@.subrange(0, run@.len() as int) =~= run@);
    }
}

/// Applies the shield-wall rule along one edge for `side`.
fn captures_on_side(board: &mut Board, side: Side, which: ShieldSide, undo: &mut UndoMove)
    requires
        old(board).wf(),
        old(undo).wf(),
        old(undo).captured_pieces_count + old(board).size() - 2 <= MAX_CAPTURED_PIECES,
    ensures
        final(board).wf(),
        final(board).same_except_cells(old(board)),
        final(board).king_sq == old(board).king_sq,
        final(board).board@ == spec_captures_on_side(
            old(board).board@,
            old(board).size(),
            side,
            which,
            old(board).last_move_to as int,
        ).0,
        final(undo).wf(),
        final(undo).captures() == old(undo).captures() + spec_captures_on_side(
            old(board).board@,
            old(board).size(),
            side,
            which,
            old(board).last_move_to as int,
        ).1,
        final(undo).captured_pieces_count <= old(undo).captured_pieces_count + old(board).size() - 2,
        final(undo).mv == old(undo).mv,
        final(undo).last_move_to == old(undo).last_move_to,
        final(undo).was_capture == old(undo).was_capture,
        final(undo).moved_piece == old(undo).moved_piece,
{
    let n = board.board_size();
    let ghost nn = n as int;
    let ghost cells = board.board@;
    let last_to = board.last_move_to;
    proof {
        lemma_small_board(nn);
    }

    let mut res: Vec<usize> = Vec::new();
    let mut run: Vec<usize> = Vec::new();
    let mut started = true;
    let mut start_sq: usize = 0;
    proof {
        assert(ints(res@) =~= Seq::<int>::empty());
        assert(ints(run@) =~= Seq::<int>::empty());
    }

    let mut k: usize = 1;
    while k < n
        invariant
            board.wf(),
            *board == *old(board),
            cells == board.board@,
            n == board.size(),
            nn == n,
            3 <= n <= 11,
            1 <= k <= n,
            last_to == board.last_move_to,
            (ints(res@), ints(run@), started, start_sq as int) == walk(cells, nn, side, which, last_to as int, k as int),
            start_sq < n * n,
        decreases n - k,
    {
        proof {
            lemma_edge_square(which, k as int, k as int, nn);
        }
        let sq = edge_square_exec(which, k, n);
        let ghost st = walk(cells, nn, side, which, last_to as int, k as int);
        if k == n - 1 {
            if run.len() > 1 {
                append_indices(&mut res, &run);
                run.clear();
                proof {
                    assert(ints(run@) =~= Seq::<int>::empty());
                }
            }
        } else if board.board[sq] == Piece::EMPTY {
            run.clear();
            started = false;
            proof {
                assert(ints(run@) =~= Seq::<int>::empty());
            }
        } else if is_friend(board, side, sq) {
            if run.len() > 1 {
                if last_to == start_sq as OptionalSquare || last_to == sq as OptionalSquare {
                    append_indices(&mut res, &run);
                }
                run.clear();
                proof {
                    assert(ints(run@) =~= Seq::<int>::empty());
                }
            }
            started = true;
            start_sq = sq;
        } else if started {
            let roof = roof_square_exec(which, sq, n, k);
            if is_friend(board, side, roof) {
                run.push(k);
                proof {
                    assert(ints(run@) =~= st.1.push(k as int));
                }
            } else {
                run.clear();
                started = false;
                proof {
                    assert(ints(run@) =~= Seq::<int>::empty());
                }
            }
        }
        k += 1;
    }

    proof {
        lemma_walk_inv(cells, nn, side, which, last_to as int, nn);
        let st = walk(cells, nn, side, which, last_to as int, nn);
        assert(st.0 + st.1 =~= ints(res@) + ints(run@));
        assert forall|i: int, j: int| 0 <= i < j < ints(res@).len() implies ints(res@)[i] < ints(res@)[j] by {
            assert(ints(res@)[i] == (st.0 + st.1)[i]);
            assert(ints(res@)[j] == (st.0 + st.1)[j]);
        }
        assert forall|i: int| 0 <= i < ints(res@).len() implies 1 <= #[trigger] ints(res@)[i] < nn - 1 by {
            assert(ints(res@)[i] == (st.0 + st.1)[i]);
        }
        lemma_edge_list(which, ints(res@), nn);
        lemma_remove_listed(cells, edge_squares(which, ints(res@), nn));
        assert forall|a: int| 0 <= a < res@.len() implies #[trigger] res@[a] < n by {
            assert(ints(res@)[a] == res@[a] as int);
        }
        assert forall|a: int| 0 <= a < res@.len() implies cells[#[trigger] edge_squares(which, ints(res@), nn)[a]] != Piece::EMPTY by {
            assert(ints(res@)[a] == (st.0 + st.1)[a]);
        }
        assert(ints(res@).len() <= nn - 2) by {
            // strictly increasing positions within 1..n-2
            lemma_increasing_bound(ints(res@), 1, nn - 2);
        }
    }

    let ghost squares = edge_squares(which, ints(res@), nn);
    let ghost caps0 = undo.captures();
    let mut i: usize = 0;
    while i < res.len()
        invariant
            3 <= n <= 11,
            nn == n,
            n == board.size(),
            i <= res@.len(),
            res@.len() <= n - 2,
            squares == edge_squares(which, ints(res@), nn),
            forall|a: int, b: int| 0 <= a < b < squares.len() ==> squares[a] != squares[b],
            forall|a: int| 0 <= a < squares.len() ==> 0 <= #[trigger] squares[a] < nn * nn,
            forall|a: int| 0 <= a < res@.len() ==> #[trigger] res@[a] < n,
            forall|a: int|
                0 <= a < squares.len() ==> cells[#[trigger] squares[a]] != Piece::EMPTY,
            cells.len() == nn * nn,
            nn * nn <= 256,
            board.wf(),
            board.same_except_cells(old(board)),
            board.king_sq == old(board).king_sq,
            board.size() == old(board).size(),
            old(board).board@ == cells,
            board.board@ == remove_listed(cells, squares.subrange(0, i as int)).0,
            undo.wf(),
            undo.captures() == caps0 + remove_listed(cells, squares.subrange(0, i as int)).1,
            caps0 == old(undo).captures(),
            undo.captured_pieces_count <= old(undo).captured_pieces_count + i,
            old(undo).captured_pieces_count + n - 2 <= MAX_CAPTURED_PIECES,
            undo.mv == old(undo).mv,
            undo.last_move_to == old(undo).last_move_to,
            undo.was_capture == old(undo).was_capture,
            undo.moved_piece == old(undo).moved_piece,
        decreases res@.len() - i,
    {
        let sq = edge_square_exec(which, res[i], n);
        proof {
            let pre = squares.subrange(0, i as int);
            assert(squares[i as int] == sq as int);
            assert forall|a: int, b: int| 0 <= a < b < pre.len() implies pre[a] != pre[b] by {}
            lemma_remove_listed(cells, pre);
            assert(!pre.contains(sq as int)) by {
                if pre.contains(sq as int) {
                    let a = choose|a: int| 0 <= a < pre.len() && pre[a] == sq as int;
                    assert(squares[a] == squares[i as int]);
                }
            }
            assert(board.board@[sq as int] == cells[sq as int]);
            assert(squares.subrange(0, i + 1) =~= pre.push(sq as int));
            assert(squares.subrange(0, i + 1).drop_last() =~= pre);
        }
        add_to_undo_and_remove(sq, board, undo);
        proof {
            let pre = squares.subrange(0, i as int);
            let (c, cps) = remove_listed(cells, pre);
            assert(squares.subrange(0, i + 1).last() == sq as int);
            if cells[sq as int] != Piece::KING {
                assert(undo.captures() =~= caps0 + remove_listed(cells, squares.subrange(0, i + 1)).1);
            }
        }
        i += 1;
    }
    proof {
        assert(squares.subrange(0, res@.len() as int) =~= squares);
        assert(shield_line_captures(cells, nn, side, which, last_to as int) == ints(res@));
    }
}

/// A strictly increasing sequence of integers in `lo..=hi` has at most `hi - lo + 1` elements.
pub proof fn lemma_increasing_bound(s: Seq<int>, lo: int, hi: int)
    requires
        forall|i: int, j: int| 0 <= i < j < s.len() ==> s[i] < s[j],
        forall|i: int| 0 <= i < s.len() ==> lo <= #[trigger] s[i] <= hi,
    ensures
        s.len() <= if hi - lo + 1 > 0 { hi - lo + 1 } else { 0 },
    decreases s.len(),
{
    if s.len() > 0 {
        let t = s.drop_last();
        assert forall|i: int| 0 <= i < t.len() implies lo <= #[trigger] t[i] <= s.last() - 1 by {
            assert(t[i] == s[i]);
            assert(s[i] < s[s.len() - 1]);
        }
        lemma_increasing_bound(t, lo, s.last() - 1);
    }
}

} // verus!

verus! {

pub open spec fn push_side(s: Seq<ShieldSide>, cond: bool, which: ShieldSide) -> Seq<ShieldSide> {
    if cond { s.push(which) } else { s }
}

/// The edges a square next to the border can close a shield wall on.
pub open spec fn spec_shield_sides(sq: int, n: int) -> Seq<ShieldSide> {
    let r = row_of(sq, n);
    let c = col_of(sq, n);
    push_side(
        push_side(
            push_side(push_side(Seq::empty(), r <= 1, ShieldSide::Bottom), r >= n - 2, ShieldSide::Top),
            c <= 1,
            ShieldSide::Left,
        ),
        c >= n - 2,
        ShieldSide::Right,
    )
}

fn shield_sides(to_sq: Square, board: &Board) -> (v: Vec<ShieldSide>)
    requires
        board.wf(),
        to_sq < board.sqs(),
    ensures
        v@ == spec_shield_sides(to_sq as int, board.size()),
{
    let n = board.board_size();
    let r = board.precomputed.row[to_sq];
    let c = board.precomputed.col[to_sq];
    let mut v: Vec<ShieldSide> = Vec::new();

    if r <= 1 {
        v.push(ShieldSide::Bottom);
    }
    if r >= n - 2 {
        v.push(ShieldSide::Top);
    }
    if c <= 1 {
        v.push(ShieldSide::Left);
    }
    if c >= n - 2 {
        v.push(ShieldSide::Right);
    }
    proof {
        let e = Seq::<ShieldSide>::empty();
        assert(v@ =~= spec_shield_sides(to_sq as int, n as int));
    }
    v
}

/// The shield-wall rule applied along the given edges, one after the other.
pub open spec fn shield_fold(
    cells: Seq<Piece>,
    n: int,
    side: Side,
    last_to: int,
    sides: Seq<ShieldSide>,
) -> (Seq<Piece>, Seq<CapturedPiece>)
    decreases sides.len(),
{
    if sides.len() == 0 {
        (cells, Seq::empty())
    } else {
        let (c, caps) = shield_fold(cells, n, side, last_to, sides.drop_last());
        let (c2, caps2) = spec_captures_on_side(c, n, side, sides.last(), last_to);
        (c2, caps + caps2)
    }
}

/// The shield-wall captures a move to `to` makes for `side`.
pub open spec fn spec_shield_walls(cells: Seq<Piece>, n: int, side: Side, last_to: int, to: int) -> (
    Seq<Piece>,
    Seq<CapturedPiece>,
) {
    if crate::board::utils::spec_is_edge(to, n) {
        shield_fold(cells, n, side, last_to, spec_shield_sides(to, n))
    } else {
        (cells, Seq::empty())
    }
}

proof fn lemma_shield_sides_len(sq: int, n: int)
    requires
        3 <= n <= 11,
        0 <= sq < n * n,
    ensures
        spec_shield_sides(sq, n).len() * (n - 2) <= 18,
        spec_shield_sides(sq, n).len() <= 4,
{
    crate::board::utils::lemma_square_parts(sq, n);
    let len = spec_shield_sides(sq, n).len();
    if n >= 5 {
        assert(len <= 2);
        assert(len * (n - 2) <= 18) by (nonlinear_arith)
            requires
                len <= 2,
                n <= 11,
        ;
    } else {
        assert(len * (n - 2) <= 18) by (nonlinear_arith)
            requires
                len <= 4,
                n <= 4,
        ;
    }
}

pub fn make_shield_wall_captures(board: &mut Board, to_sq: Square, undo: &mut UndoMove)
    requires
        old(board).wf(),
        to_sq < old(board).sqs(),
        old(undo).wf(),
        old(undo).captured_pieces_count + 18 <= MAX_CAPTURED_PIECES,
    ensures
        final(board).wf(),
        final(board).same_except_cells(old(board)),
        final(board).king_sq == old(board).king_sq,
        final(board).board@ == spec_shield_walls(
            old(board).board@,
            old(board).size(),
            old(board).side_to_move,
            old(board).last_move_to as int,
            to_sq as int,
        ).0,
        final(undo).wf(),
        final(undo).captures() == old(undo).captures() + spec_shield_walls(
            old(board).board@,
            old(board).size(),
            old(board).side_to_move,
            old(board).last_move_to as int,
            to_sq as int,
        ).1,
        final(undo).captured_pieces_count <= old(undo).captured_pieces_count + 18,
        final(undo).mv == old(undo).mv,
        final(undo).last_move_to == old(undo).last_move_to,
        final(undo).was_capture == old(undo).was_capture,
        final(undo).moved_piece == old(undo).moved_piece,
{
    let n = board.board_size();
    if !crate::board::utils::is_edge_square(to_sq, n) {
        proof {
            assert(undo.captures() =~= old(undo).captures() + Seq::<CapturedPiece>::empty());
        }
        return;
    }

    let sides = shield_sides(to_sq, board);
    let ghost cells0 = board.board@;
    let ghost caps0 = undo.captures();
    let ghost count0 = undo.captured_pieces_count as int;
    let side = board.side_to_move;
    let last_to = board.last_move_to;
    proof {
        lemma_shield_sides_len(to_sq as int, n as int);
        assert(sides@.subrange(0, 0) =~= Seq::<ShieldSide>::empty());
        assert(undo.captures() =~= caps0 + Seq::<CapturedPiece>::empty());
    }
    let mut j: usize = 0;
    while j < sides.len()
        invariant
            board.wf(),
            board.same_except_cells(old(board)),
            board.king_sq == old(board).king_sq,
            board.size() == n,
            side == old(board).side_to_move,
            last_to == old(board).last_move_to,
            j <= sides@.len(),
            sides@.len() <= 4,
            sides@.len() * (n - 2) <= 18,
            3 <= n <= 11,
            (board.board@, undo.captures()) == ({
                let (c, caps) = shield_fold(cells0, n as int, side, last_to as int, sides@.subrange(0, j as int));
                (c, caps0 + caps)
            }),
            undo.wf(),
            undo.captured_pieces_count <= count0 + j * (n - 2),
            count0 == old(undo).captured_pieces_count,
            count0 + 18 <= MAX_CAPTURED_PIECES,
            undo.mv == old(undo).mv,
            undo.last_move_to == old(undo).last_move_to,
            undo.was_capture == old(undo).was_capture,
            undo.moved_piece == old(undo).moved_piece,
        decreases sides@.len() - j,
    {
        proof {
            assert(j * (n - 2) + (n - 2) <= 18) by (nonlinear_arith)
                requires
                    j < sides@.len(),
                    sides@.len() * (n - 2) <= 18,
                    n >= 3,
            ;
        }
        let ghost c_before = board.board@;
        let ghost caps_before = undo.captures();
        captures_on_side(board, side, sides[j], undo);
        proof {
            let pre = sides@.subrange(0, j as int);
            let nxt = sides@.subrange(0, j + 1);
            assert(nxt.drop_last() =~= pre);
            assert(nxt.last() == sides@[j as int]);
            let (c, caps) = shield_fold(cells0, n as int, side, last_to as int, pre);
            let (c2, caps2) = spec_captures_on_side(c, n as int, side, sides@[j as int], last_to as int);
            assert(undo.captures() =~= caps0 + (caps + caps2));
            assert(undo.captured_pieces_count <= count0 + (j + 1) * (n - 2)) by (nonlinear_arith)
                requires
                    undo.captured_pieces_count <= count0 + j * (n - 2) + n - 2,
            ;
        }
        j += 1;
    }
    proof {
        assert(sides@.subrange(0, sides@.len() as int) =~= sides@);
        assert(undo.captured_pieces_count <= count0 + 18) by (nonlinear_arith)
            requires
                undo.captured_pieces_count <= count0 + sides@.len() * (n - 2),
                sides@.len() * (n - 2) <= 18,
        ;
    }
}

} // verus!
