use vstd::prelude::*;
use crate::board::types::{belongs_to, Piece, Side};
use crate::moves::shield::{
    edge_square, edge_squares, lemma_edge_list, lemma_remove_listed, lemma_walk_inv, remove_listed,
    shield_fold, shield_line_captures, spec_captures_on_side, spec_shield_sides, spec_shield_walls,
    walk, ShieldSide,
};
use crate::moves::undo::CapturedPiece;

verus! {

/// Whether some recorded capture took the piece on `s`.
pub open spec fn captured_at(caps: Seq<CapturedPiece>, s: int) -> bool {
    exists|i: int| 0 <= i < caps.len() && #[trigger] caps[i].square == s
}

/// `c2` is `c` with the recorded pieces taken off: every record names a
/// distinct square that held that piece in `c` and is empty in `c2`, and no
/// other square changed.
pub open spec fn removes(c: Seq<Piece>, c2: Seq<Piece>, caps: Seq<CapturedPiece>) -> bool {
    &&& c2.len() == c.len()
    &&& forall|i: int, j: int| 0 <= i < j < caps.len() ==> caps[i].square != caps[j].square
    &&& forall|i: int|
        0 <= i < caps.len() ==> {
            let cp = #[trigger] caps[i];
            &&& 0 <= cp.square < c.len()
            &&& c[cp.square as int] == cp.piece
            &&& cp.piece != Piece::EMPTY
            &&& c2[cp.square as int] == Piece::EMPTY
        }
    &&& forall|s: int| 0 <= s < c.len() && !captured_at(caps, s) ==> #[trigger] c2[s] == c[s]
}

pub proof fn lemma_removes_none(c: Seq<Piece>)
    ensures
        removes(c, c, Seq::empty()),
{
}

pub proof fn lemma_removes_compose(
    c: Seq<Piece>,
    c2: Seq<Piece>,
    caps: Seq<CapturedPiece>,
    c3: Seq<Piece>,
    caps2: Seq<CapturedPiece>,
)
    requires
        removes(c, c2, caps),
        removes(c2, c3, caps2),
    ensures
        removes(c, c3, caps + caps2),
{
    let all = caps + caps2;
    assert forall|s: int| 0 <= s < c.len() && !captured_at(all, s) implies #[trigger] c3[s] == c[s] by {
        if captured_at(caps, s) {
            let i = choose|i: int| 0 <= i < caps.len() && #[trigger] caps[i].square == s;
            assert(all[i].square == s);
        }
        if captured_at(caps2, s) {
            let i = choose|i: int| 0 <= i < caps2.len() && #[trigger] caps2[i].square == s;
            assert(all[caps.len() + i].square == s);
        }
    }
    assert forall|i: int, j: int| 0 <= i < j < all.len() implies all[i].square != all[j].square by {
        if i < caps.len() && j >= caps.len() {
            let a = caps[i];
            let b = caps2[j - caps.len()];
            assert(c2[a.square as int] == Piece::EMPTY);
            assert(c2[b.square as int] == b.piece);
        }
    }
    assert forall|i: int| 0 <= i < all.len() implies {
        let cp = #[trigger] all[i];
        &&& 0 <= cp.square < c.len()
        &&& c[cp.square as int] == cp.piece
        &&& cp.piece != Piece::EMPTY
        &&& c3[cp.square as int] == Piece::EMPTY
    } by {
        if i < caps.len() {
            let cp = caps[i];
            assert(all[i] == cp);
            // A square emptied by the first removal is empty afterwards too.
            if captured_at(caps2, cp.square as int) {
                let j = choose|j: int| 0 <= j < caps2.len() && #[trigger] caps2[j].square == cp.square;
                assert(c2[caps2[j].square as int] == caps2[j].piece);
            }
        } else {
            let cp = caps2[i - caps.len()];
            assert(all[i] == cp);
            if captured_at(caps, cp.square as int) {
                let j = choose|j: int| 0 <= j < caps.len() && #[trigger] caps[j].square == cp.square;
                assert(c2[caps[j].square as int] == Piece::EMPTY);
            } else {
                assert(c2[cp.square as int] == c[cp.square as int]);
            }
        }
    }
}

/// Removing a list of distinct non-empty squares.
pub proof fn lemma_remove_listed_removes(cells: Seq<Piece>, squares: Seq<int>)
    requires
        forall|i: int, j: int| 0 <= i < j < squares.len() ==> squares[i] != squares[j],
        forall|i: int| 0 <= i < squares.len() ==> 0 <= #[trigger] squares[i] < cells.len(),
        forall|i: int| 0 <= i < squares.len() ==> cells[#[trigger] squares[i]] != Piece::EMPTY,
        cells.len() <= 256,
    ensures
        removes(cells, remove_listed(cells, squares).0, remove_listed(cells, squares).1),
        forall|i: int| 0 <= i < remove_listed(cells, squares).1.len() ==> (#[trigger] remove_listed(cells, squares).1[i]).piece != Piece::KING,
    decreases squares.len(),
{
    lemma_remove_listed(cells, squares);
    if squares.len() > 0 {
        let init = squares.drop_last();
        lemma_remove_listed_removes(cells, init);
        lemma_remove_listed(cells, init);
        let (c, caps) = remove_listed(cells, init);
        let sq = squares.last();
        assert(!init.contains(sq)) by {
            if init.contains(sq) {
                let i = choose|i: int| 0 <= i < init.len() && init[i] == sq;
                assert(squares[i] == squares[squares.len() - 1]);
            }
        }
        if c[sq] != Piece::KING {
            let cp = CapturedPiece { square: sq as usize, piece: c[sq] };
            let c2 = c.update(sq, Piece::EMPTY);
            assert(c[sq] == cells[sq]);
            assert(!captured_at(caps, sq)) by {
                if captured_at(caps, sq) {
                    let i = choose|i: int| 0 <= i < caps.len() && #[trigger] caps[i].square == sq;
                    assert(init.contains(caps[i].square as int));
                }
            }
            assert(removes(c, c2, seq![cp])) by {
                assert forall|s: int| 0 <= s < c.len() && !captured_at(seq![cp], s) implies #[trigger] c2[s] == c[s] by {
                    if s == sq {
                        assert(seq![cp][0].square == s);
                    }
                }
            }
            lemma_removes_compose(cells, c, caps, c2, seq![cp]);
            assert(caps.push(cp) =~= caps + seq![cp]);
        }
    }
}

/// The pieces the walk along one edge takes are enemies of `side`.
pub proof fn lemma_captures_on_side(cells: Seq<Piece>, n: int, side: Side, which: ShieldSide, last_to: int)
    requires
        3 <= n <= 11,
        cells.len() == n * n,
    ensures
        removes(cells, spec_captures_on_side(cells, n, side, which, last_to).0, spec_captures_on_side(cells, n, side, which, last_to).1),
        forall|i: int|
            0 <= i < spec_captures_on_side(cells, n, side, which, last_to).1.len() ==> {
                let cp = #[trigger] spec_captures_on_side(cells, n, side, which, last_to).1[i];
                &&& cp.piece != Piece::KING
                &&& !belongs_to(cp.piece, side)
            },
        spec_captures_on_side(cells, n, side, which, last_to).1.len() <= n - 2,
{
    lemma_walk_inv(cells, n, side, which, last_to, n);
    let st = walk(cells, n, side, which, last_to, n);
    let ks = shield_line_captures(cells, n, side, which, last_to);
    assert(ks == st.0);
    let all = st.0 + st.1;
    assert forall|i: int, j: int| 0 <= i < j < ks.len() implies ks[i] < ks[j] by {
        assert(ks[i] == all[i] && ks[j] == all[j]);
    }
    assert forall|i: int| 0 <= i < ks.len() implies 1 <= #[trigger] ks[i] < n - 1 by {
        assert(ks[i] == all[i]);
    }
    crate::board::utils::lemma_small_board(n);
    lemma_edge_list(which, ks, n);
    let squares = edge_squares(which, ks, n);
    assert forall|i: int| 0 <= i < squares.len() implies cells[#[trigger] squares[i]] != Piece::EMPTY
        && !belongs_to(cells[squares[i]], side) by {
        assert(ks[i] == all[i]);
    }
    lemma_remove_listed_removes(cells, squares);
    lemma_remove_listed(cells, squares);
    let caps = remove_listed(cells, squares).1;
    assert forall|i: int| 0 <= i < caps.len() implies {
        let cp = #[trigger] caps[i];
        &&& cp.piece != Piece::KING
        &&& !belongs_to(cp.piece, side)
    } by {
        let cp = caps[i];
        let j = choose|j: int| 0 <= j < squares.len() && squares[j] == cp.square as int;
        assert(cells[squares[j]] == cp.piece);
    }
    crate::moves::shield::lemma_increasing_bound(ks, 1, n - 2);
}

/// The shield-wall rule takes only enemies of `side`, never a king.
pub proof fn lemma_shield_fold(cells: Seq<Piece>, n: int, side: Side, last_to: int, sides: Seq<ShieldSide>)
    requires
        3 <= n <= 11,
        cells.len() == n * n,
    ensures
        removes(cells, shield_fold(cells, n, side, last_to, sides).0, shield_fold(cells, n, side, last_to, sides).1),
        shield_fold(cells, n, side, last_to, sides).0.len() == cells.len(),
        forall|i: int|
            0 <= i < shield_fold(cells, n, side, last_to, sides).1.len() ==> {
                let cp = #[trigger] shield_fold(cells, n, side, last_to, sides).1[i];
                &&& cp.piece != Piece::KING
                &&& !belongs_to(cp.piece, side)
            },
    decreases sides.len(),
{
    if sides.len() > 0 {
        lemma_shield_fold(cells, n, side, last_to, sides.drop_last());
        let (c, caps) = shield_fold(cells, n, side, last_to, sides.drop_last());
        lemma_captures_on_side(c, n, side, sides.last(), last_to);
        let (c2, caps2) = spec_captures_on_side(c, n, side, sides.last(), last_to);
        lemma_removes_compose(cells, c, caps, c2, caps2);
        let all = caps + caps2;
        assert forall|i: int| 0 <= i < all.len() implies {
            let cp = #[trigger] all[i];
            &&& cp.piece != Piece::KING
            &&& !belongs_to(cp.piece, side)
        } by {
            if i < caps.len() {
                assert(all[i] == caps[i]);
            } else {
                assert(all[i] == caps2[i - caps.len()]);
            }
        }
    } else {
        lemma_removes_none(cells);
    }
}

pub proof fn lemma_shield_walls(cells: Seq<Piece>, n: int, side: Side, last_to: int, to: int)
    requires
        3 <= n <= 11,
        cells.len() == n * n,
    ensures
        removes(cells, spec_shield_walls(cells, n, side, last_to, to).0, spec_shield_walls(cells, n, side, last_to, to).1),
        forall|i: int|
            0 <= i < spec_shield_walls(cells, n, side, last_to, to).1.len() ==> {
                let cp = #[trigger] spec_shield_walls(cells, n, side, last_to, to).1[i];
                &&& cp.piece != Piece::KING
                &&& !belongs_to(cp.piece, side)
            },
{
    if crate::board::utils::spec_is_edge(to, n) {
        lemma_shield_fold(cells, n, side, last_to, spec_shield_sides(to, n));
    } else {
        lemma_removes_none(cells);
    }
}

} // verus!
