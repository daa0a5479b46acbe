use vstd::prelude::*;
use crate::board::types::Piece;
use crate::board::utils::{col_of, lemma_square_compose, lemma_square_parts, row_of, square_at};
use crate::board::zobrist::ZobristData;
use crate::utils::bits::{bit16, fits16, lemma_bit16_clear_single, lemma_bit16_or_single, lemma_bit16_zero};

verus! {

// ---------------------------------------------------------------------------
// Predicates over the parts of a board, shared by the board and its proofs.
// ---------------------------------------------------------------------------

/// Row masks: bit `c` of `row_occ[r]` is set exactly when square (r, c) is occupied.
pub open spec fn row_occ_ok(row_occ: Seq<u16>, cells: Seq<Piece>, n: int) -> bool {
    &&& row_occ.len() == n
    &&& forall|r: int| 0 <= r < n ==> fits16(#[trigger] row_occ[r], n)
    &&& forall|r: int, c: int|
        0 <= r < n && 0 <= c < n ==> (#[trigger] bit16(row_occ[r], c) <==> cells[square_at(r, c, n)]
            != Piece::EMPTY)
}

/// Column masks: bit `r` of `col_occ[c]` is set exactly when square (r, c) is occupied.
pub open spec fn col_occ_ok(col_occ: Seq<u16>, cells: Seq<Piece>, n: int) -> bool {
    &&& col_occ.len() == n
    &&& forall|c: int| 0 <= c < n ==> fits16(#[trigger] col_occ[c], n)
    &&& forall|r: int, c: int|
        0 <= r < n && 0 <= c < n ==> (#[trigger] bit16(col_occ[c], r) <==> cells[square_at(r, c, n)]
            != Piece::EMPTY)
}

pub proof fn lemma_square_eq_iff(r: int, c: int, sq: int, n: int)
    requires
        0 < n,
        0 <= sq < n * n,
        0 <= r < n,
        0 <= c < n,
    ensures
        (square_at(r, c, n) == sq) <==> (r == row_of(sq, n) && c == col_of(sq, n)),
{
    lemma_square_parts(sq, n);
    lemma_square_compose(r, c, n);
}

/// Writing one square keeps the occupancy masks right when the mask bits of
/// that square are updated with it.
pub proof fn lemma_occ_update(
    row_occ: Seq<u16>,
    col_occ: Seq<u16>,
    cells: Seq<Piece>,
    sq: int,
    p: Piece,
    n: int,
)
    requires
        3 <= n <= 11,
        cells.len() == n * n,
        0 <= sq < n * n,
        row_occ_ok(row_occ, cells, n),
        col_occ_ok(col_occ, cells, n),
        (cells[sq] == Piece::EMPTY) != (p == Piece::EMPTY),
    ensures
        ({
            let r = row_of(sq, n);
            let c = col_of(sq, n);
            let new_cells = cells.update(sq, p);
            if p != Piece::EMPTY {
                &&& row_occ_ok(
                    row_occ.update(r, row_occ[r] | (1u16 << (c as u16))),
                    new_cells,
                    n,
                )
                &&& col_occ_ok(
                    col_occ.update(c, col_occ[c] | (1u16 << (r as u16))),
                    new_cells,
                    n,
                )
            } else {
                &&& row_occ_ok(
                    row_occ.update(r, row_occ[r] & !(1u16 << (c as u16))),
                    new_cells,
                    n,
                )
                &&& col_occ_ok(
                    col_occ.update(c, col_occ[c] & !(1u16 << (r as u16))),
                    new_cells,
                    n,
                )
            }
        }),
{
    lemma_square_parts(sq, n);
    let r = row_of(sq, n);
    let c = col_of(sq, n);
    let new_cells = cells.update(sq, p);
    let set = p != Piece::EMPTY;
    let nr = if set {
        row_occ[r] | (1u16 << (c as u16))
    } else {
        row_occ[r] & !(1u16 << (c as u16))
    };
    let nc = if set {
        col_occ[c] | (1u16 << (r as u16))
    } else {
        col_occ[c] & !(1u16 << (r as u16))
    };
    let new_row = row_occ.update(r, nr);
    let new_col = col_occ.update(c, nc);
    assert forall|j: int| 0 <= j < 16 implies bit16(nr, j) == (if j == c { set } else { bit16(row_occ[r], j) }) by {
        if set {
            lemma_bit16_or_single(row_occ[r], c as u16, j as u16);
        } else {
            lemma_bit16_clear_single(row_occ[r], c as u16, j as u16);
        }
    }
    assert forall|j: int| 0 <= j < 16 implies bit16(nc, j) == (if j == r { set } else { bit16(col_occ[c], j) }) by {
        if set {
            lemma_bit16_or_single(col_occ[c], r as u16, j as u16);
        } else {
            lemma_bit16_clear_single(col_occ[c], r as u16, j as u16);
        }
    }
    assert forall|i: int| 0 <= i < n implies fits16(#[trigger] new_row[i], n) by {
        if i == r {
            assert forall|j: int| n <= j < 16 implies !bit16(nr, j) by {
                assert(fits16(row_occ[r], n));
            }
        }
    }
    assert forall|i: int| 0 <= i < n implies fits16(#[trigger] new_col[i], n) by {
        if i == c {
            assert forall|j: int| n <= j < 16 implies !bit16(nc, j) by {
                assert(fits16(col_occ[c], n));
            }
        }
    }
    assert forall|rr: int, cc: int| 0 <= rr < n && 0 <= cc < n implies (#[trigger] bit16(
        new_row[rr],
        cc,
    ) <==> new_cells[square_at(rr, cc, n)] != Piece::EMPTY) by {
        lemma_square_eq_iff(rr, cc, sq, n);
        lemma_square_compose(rr, cc, n);
        assert(bit16(row_occ[rr], cc) <==> cells[square_at(rr, cc, n)] != Piece::EMPTY);
    }
    assert forall|rr: int, cc: int| 0 <= rr < n && 0 <= cc < n implies (#[trigger] bit16(
        new_col[cc],
        rr,
    ) <==> new_cells[square_at(rr, cc, n)] != Piece::EMPTY) by {
        lemma_square_eq_iff(rr, cc, sq, n);
        lemma_square_compose(rr, cc, n);
        assert(bit16(col_occ[cc], rr) <==> cells[square_at(rr, cc, n)] != Piece::EMPTY);
    }
}

/// Masks of an empty board.
pub proof fn lemma_occ_empty(occ: Seq<u16>, cells: Seq<Piece>, n: int)
    requires
        3 <= n <= 11,
        cells.len() == n * n,
        occ.len() == n,
        forall|i: int| 0 <= i < n ==> occ[i] == 0u16,
        forall|i: int| 0 <= i < n * n ==> cells[i] == Piece::EMPTY,
    ensures
        row_occ_ok(occ, cells, n),
        col_occ_ok(occ, cells, n),
{
    assert forall|j: int| #![auto] 0 <= j < 16 implies !bit16(0u16, j) by {
        lemma_bit16_zero(j);
    }
    assert forall|r: int, c: int| 0 <= r < n && 0 <= c < n implies cells[square_at(r, c, n)]
        == Piece::EMPTY by {
        lemma_square_compose(r, c, n);
    }
}

// ---------------------------------------------------------------------------
// Zobrist hashing: the XOR of the keys of the occupied squares, and of the
// side key when the defenders are to move.
// ---------------------------------------------------------------------------

pub open spec fn zobrist_term(z: ZobristData, cells: Seq<Piece>, s: int) -> u64 {
    if cells[s] == Piece::EMPTY {
        0
    } else {
        z.key(cells[s], s)
    }
}

pub open spec fn zobrist_fold(z: ZobristData, cells: Seq<Piece>, k: int) -> u64
    decreases k,
{
    if k <= 0 {
        0
    } else {
        zobrist_fold(z, cells, k - 1) ^ zobrist_term(z, cells, k - 1)
    }
}

proof fn lemma_xor_rotate(a: u64, b: u64, c: u64, d: u64)
    ensures
        ((a ^ b) ^ c) ^ d == ((a ^ d) ^ b) ^ c,
{
    assert(((a ^ b) ^ c) ^ d == ((a ^ d) ^ b) ^ c) by (bit_vector);
}

proof fn lemma_xor_cancel(a: u64, b: u64, c: u64)
    ensures
        ((a ^ b) ^ b) ^ c == a ^ c,
{
    assert(((a ^ b) ^ b) ^ c == a ^ c) by (bit_vector);
}

/// Changing one square changes the hash by the old and the new key of that square.
pub proof fn lemma_zobrist_fold_update(z: ZobristData, c: Seq<Piece>, s: int, p: Piece, k: int)
    requires
        0 <= s < c.len(),
        0 <= k <= c.len(),
    ensures
        zobrist_fold(z, c.update(s, p), k) == if s < k {
            (zobrist_fold(z, c, k) ^ zobrist_term(z, c, s)) ^ zobrist_term(z, c.update(s, p), s)
        } else {
            zobrist_fold(z, c, k)
        },
    decreases k,
{
    let c2 = c.update(s, p);
    if k <= 0 {
    } else {
        lemma_zobrist_fold_update(z, c, s, p, k - 1);
        if k - 1 == s {
            assert(zobrist_fold(z, c2, k - 1) == zobrist_fold(z, c, k - 1));
            lemma_xor_cancel(
                zobrist_fold(z, c, k - 1),
                zobrist_term(z, c, s),
                zobrist_term(z, c2, s),
            );
        } else if k - 1 > s {
            assert(zobrist_term(z, c2, k - 1) == zobrist_term(z, c, k - 1));
            lemma_xor_rotate(
                zobrist_fold(z, c, k - 1),
                zobrist_term(z, c, s),
                zobrist_term(z, c2, s),
                zobrist_term(z, c, k - 1),
            );
        } else {
            assert(zobrist_term(z, c2, k - 1) == zobrist_term(z, c, k - 1));
        }
    }
}

pub proof fn lemma_zobrist_fold_empty(z: ZobristData, c: Seq<Piece>, k: int)
    requires
        0 <= k <= c.len(),
        forall|i: int| 0 <= i < c.len() ==> c[i] == Piece::EMPTY,
    ensures
        zobrist_fold(z, c, k) == 0,
    decreases k,
{
    if k > 0 {
        lemma_zobrist_fold_empty(z, c, k - 1);
        assert(0u64 ^ 0u64 == 0u64) by (bit_vector);
    }
}

pub proof fn lemma_xor_self_inverse(a: u64, b: u64)
    ensures
        (a ^ b) ^ b == a,
        a ^ 0u64 == a,
{
    assert((a ^ b) ^ b == a) by (bit_vector);
    assert(a ^ 0u64 == a) by (bit_vector);
}

} // verus!

verus! {

// ---------------------------------------------------------------------------
// Piece lists: `list[..count]` holds the squares of the pieces of one kind,
// and `pidx[sq]` is the position of `sq` in that list.
// ---------------------------------------------------------------------------

pub open spec fn list_ok(
    cells: Seq<Piece>,
    list: Seq<usize>,
    pidx: Seq<u8>,
    count: int,
    p: Piece,
    sqs: int,
) -> bool {
    &&& 0 <= count <= sqs
    &&& forall|i: int|
        0 <= i < count ==> {
            let s = #[trigger] list[i];
            &&& s < sqs
            &&& cells[s as int] == p
            &&& pidx[s as int] == i
        }
    &&& forall|s: int|
        0 <= s < sqs && #[trigger] cells[s] == p ==> {
            &&& pidx[s] < count
            &&& list[pidx[s] as int] == s
        }
}

/// Adding a piece of kind `p` on an empty square at the end of its list.
pub proof fn lemma_list_add(
    cells: Seq<Piece>,
    list: Seq<usize>,
    pidx: Seq<u8>,
    count: int,
    p: Piece,
    sqs: int,
    sq: int,
)
    requires
        list_ok(cells, list, pidx, count, p, sqs),
        cells.len() == sqs,
        list.len() == sqs,
        pidx.len() == sqs,
        0 <= sq < sqs,
        cells[sq] == Piece::EMPTY,
        count < sqs,
        sqs <= 256,
        p != Piece::EMPTY,
    ensures
        list_ok(
            cells.update(sq, p),
            list.update(count, sq as usize),
            pidx.update(sq, count as u8),
            count + 1,
            p,
            sqs,
        ),
{
    let c2 = cells.update(sq, p);
    let l2 = list.update(count, sq as usize);
    let x2 = pidx.update(sq, count as u8);
    assert forall|i: int| 0 <= i < count + 1 implies {
        let s = #[trigger] l2[i];
        &&& s < sqs
        &&& c2[s as int] == p
        &&& x2[s as int] == i
    } by {
        if i < count {
            let s = list[i];
            assert(cells[s as int] == p);
            assert(s != sq);
        }
    }
    assert forall|s: int| 0 <= s < sqs && #[trigger] c2[s] == p implies {
        &&& x2[s] < count + 1
        &&& l2[x2[s] as int] == s
    } by {
        if s != sq {
            assert(cells[s] == p);
            assert(pidx[s] < count);
            assert(list[pidx[s] as int] == s);
        }
    }
}

/// The list of another kind is untouched by a write to a square that is not
/// of that kind, before or after.
pub proof fn lemma_list_frame(
    cells: Seq<Piece>,
    list: Seq<usize>,
    pidx: Seq<u8>,
    count: int,
    q: Piece,
    sqs: int,
    sq: int,
    p: Piece,
    pidx2: Seq<u8>,
)
    requires
        list_ok(cells, list, pidx, count, q, sqs),
        cells.len() == sqs,
        pidx.len() == sqs,
        pidx2.len() == sqs,
        0 <= sq < sqs,
        cells[sq] != q,
        p != q,
        forall|s: int| 0 <= s < sqs && cells[s] == q ==> pidx2[s] == pidx[s],
    ensures
        list_ok(cells.update(sq, p), list, pidx2, count, q, sqs),
{
    let c2 = cells.update(sq, p);
    assert forall|i: int| 0 <= i < count implies {
        let s = #[trigger] list[i];
        &&& s < sqs
        &&& c2[s as int] == q
        &&& pidx2[s as int] == i
    } by {
        let s = list[i];
        assert(cells[s as int] == q);
    }
    assert forall|s: int| 0 <= s < sqs && #[trigger] c2[s] == q implies {
        &&& pidx2[s] < count
        &&& list[pidx2[s] as int] == s
    } by {
        assert(s != sq);
        assert(cells[s] == q);
    }
}

/// Removing a piece of kind `p`: the last entry of the list takes its place.
pub proof fn lemma_list_remove(
    cells: Seq<Piece>,
    list: Seq<usize>,
    pidx: Seq<u8>,
    count: int,
    p: Piece,
    sqs: int,
    sq: int,
)
    requires
        list_ok(cells, list, pidx, count, p, sqs),
        cells.len() == sqs,
        list.len() == sqs,
        pidx.len() == sqs,
        0 <= sq < sqs,
        cells[sq] == p,
        p != Piece::EMPTY,
    ensures
        count >= 1,
        ({
            let idx = pidx[sq] as int;
            let last = list[count - 1];
            let (l2, x2) = if count == 1 {
                (list, pidx.update(sq, 0u8))
            } else {
                (list.update(idx, last), pidx.update(last as int, idx as u8))
            };
            &&& 0 <= idx < count
            &&& last < sqs
            &&& cells[last as int] == p
            &&& list_ok(cells.update(sq, Piece::EMPTY), l2, x2, count - 1, p, sqs)
            &&& forall|s: int| 0 <= s < sqs && cells[s] != p ==> x2[s] == pidx[s]
        }),
{
    let idx = pidx[sq] as int;
    assert(idx < count);
    let last = list[count - 1];
    assert(last < sqs && cells[last as int] == p && pidx[last as int] == count - 1);
    let c2 = cells.update(sq, Piece::EMPTY);
    if count == 1 {
        let x2 = pidx.update(sq, 0u8);
        assert(idx == 0);
        assert forall|s: int| 0 <= s < sqs && #[trigger] c2[s] == p implies {
            &&& x2[s] < count - 1
            &&& list[x2[s] as int] == s
        } by {
            assert(cells[s] == p);
            assert(pidx[s] < 1);
            assert(list[pidx[s] as int] == s);
            assert(list[0] == sq);
        }
    } else {
        let l2 = list.update(idx, last);
        let x2 = pidx.update(last as int, idx as u8);
        assert(list[idx] == sq);
        assert forall|i: int| 0 <= i < count - 1 implies {
            let s = #[trigger] l2[i];
            &&& s < sqs
            &&& c2[s as int] == p
            &&& x2[s as int] == i
        } by {
            if i == idx {
                if last as int == sq {
                    assert(pidx[sq] == count - 1);
                }
            } else {
                let s = list[i];
                assert(pidx[s as int] == i);
                if s as int == sq {
                    assert(i == idx);
                }
                if s == last {
                    assert(i == count - 1);
                }
            }
        }
        assert forall|s: int| 0 <= s < sqs && #[trigger] c2[s] == p implies {
            &&& x2[s] < count - 1
            &&& l2[x2[s] as int] == s
        } by {
            assert(s != sq);
            assert(cells[s] == p);
            if s == last as int {
                if idx == count - 1 {
                    assert(list[idx] == sq);
                    assert(last as int == sq);
                }
            } else {
                assert(pidx[s] < count);
                assert(list[pidx[s] as int] == s);
                if pidx[s] == count - 1 {
                    assert(s == last as int);
                }
                if pidx[s] as int == idx {
                    assert(s == sq);
                }
            }
        }
    }
}

// ---------------------------------------------------------------------------
// Piece counts.
// ---------------------------------------------------------------------------

/// Number of squares among the first `k` that hold `p`.
pub open spec fn count_piece(cells: Seq<Piece>, p: Piece, k: int) -> int
    decreases k,
{
    if k <= 0 {
        0
    } else {
        count_piece(cells, p, k - 1) + if cells[k - 1] == p {
            1int
        } else {
            0int
        }
    }
}

pub proof fn lemma_count_update(cells: Seq<Piece>, s: int, p: Piece, q: Piece, k: int)
    requires
        0 <= s < cells.len(),
        0 <= k <= cells.len(),
    ensures
        count_piece(cells.update(s, p), q, k) == count_piece(cells, q, k) - (if s < k
            && cells[s] == q {
            1int
        } else {
            0int
        }) + (if s < k && p == q {
            1int
        } else {
            0int
        }),
    decreases k,
{
    if k > 0 {
        lemma_count_update(cells, s, p, q, k - 1);
    }
}

/// A kind of piece other than `EMPTY` fills at most the non-empty squares.
pub proof fn lemma_count_bound(cells: Seq<Piece>, p: Piece, k: int)
    requires
        0 <= k <= cells.len(),
        p != Piece::EMPTY,
    ensures
        0 <= count_piece(cells, p, k),
        count_piece(cells, p, k) + count_piece(cells, Piece::EMPTY, k) <= k,
    decreases k,
{
    if k > 0 {
        lemma_count_bound(cells, p, k - 1);
    }
}

pub proof fn lemma_count_has(cells: Seq<Piece>, p: Piece, s: int, k: int)
    requires
        0 <= s < k <= cells.len(),
        cells[s] == p,
    ensures
        count_piece(cells, p, k) >= 1,
    decreases k,
{
    if k - 1 > s {
        lemma_count_has(cells, p, s, k - 1);
    }
    if k > 0 {
        lemma_count_nonneg(cells, p, k - 1);
    }
}

pub proof fn lemma_count_nonneg(cells: Seq<Piece>, p: Piece, k: int)
    ensures
        0 <= count_piece(cells, p, k),
    decreases k,
{
    if k > 0 {
        lemma_count_nonneg(cells, p, k - 1);
    }
}

pub proof fn lemma_count_all_empty(cells: Seq<Piece>, p: Piece, k: int)
    requires
        0 <= k <= cells.len(),
        forall|i: int| 0 <= i < cells.len() ==> cells[i] == Piece::EMPTY,
        p != Piece::EMPTY,
    ensures
        count_piece(cells, p, k) == 0,
    decreases k,
{
    if k > 0 {
        lemma_count_all_empty(cells, p, k - 1);
    }
}

} // verus!
