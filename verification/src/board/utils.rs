use vstd::prelude::*;
use vstd::arithmetic::div_mod::{
    lemma_fundamental_div_mod, lemma_fundamental_div_mod_converse_div,
    lemma_fundamental_div_mod_converse_mod,
};
use crate::board::types::{Col, Piece, Row, Side, Square};

verus! {

// ---------------------------------------------------------------------------
// Board geometry. Square `sq` of an `n`x`n` board lies on row `sq / n` and
// column `sq % n`; row 0 is rank 1, column 0 is file `a`.
// ---------------------------------------------------------------------------

pub open spec fn valid_board_size(n: int) -> bool {
    3 <= n <= 11
}

pub open spec fn row_of(sq: int, n: int) -> int {
    sq / n
}

pub open spec fn col_of(sq: int, n: int) -> int {
    sq % n
}

pub open spec fn square_at(r: int, c: int, n: int) -> int {
    r * n + c
}

pub open spec fn on_board(sq: int, n: int) -> bool {
    0 <= sq < n * n
}

pub proof fn lemma_square_parts(sq: int, n: int)
    requires
        0 < n,
        0 <= sq < n * n,
    ensures
        0 <= row_of(sq, n) < n,
        0 <= col_of(sq, n) < n,
        sq == square_at(row_of(sq, n), col_of(sq, n), n),
{
    lemma_fundamental_div_mod(sq, n);
    assert(sq == n * (sq / n) + sq % n);
    assert(n * (sq / n) == (sq / n) * n) by (nonlinear_arith);
    assert(0 <= sq % n < n);
    assert(sq / n >= 0) by (nonlinear_arith)
        requires
            0 <= sq,
            0 < n,
    ;
    if sq / n >= n {
        assert((sq / n) * n >= n * n) by (nonlinear_arith)
            requires
                sq / n >= n,
                0 < n,
        ;
    }
}

pub proof fn lemma_square_compose(r: int, c: int, n: int)
    requires
        0 <= r < n,
        0 <= c < n,
    ensures
        0 <= square_at(r, c, n) < n * n,
        row_of(square_at(r, c, n), n) == r,
        col_of(square_at(r, c, n), n) == c,
{
    assert(0 <= r * n) by (nonlinear_arith)
        requires
            0 <= r,
            0 < n,
    ;
    assert(r * n + c < n * n) by (nonlinear_arith)
        requires
            0 <= r < n,
            0 <= c < n,
    ;
    lemma_fundamental_div_mod_converse_div(r * n + c, n, r, c);
    lemma_fundamental_div_mod_converse_mod(r * n + c, n, r, c);
}

pub proof fn lemma_small_board(n: int)
    requires
        0 < n <= 16,
    ensures
        n * n <= 256,
        0 < n * n,
{
    assert(n * n <= 256) by (nonlinear_arith)
        requires
            0 < n <= 16,
    ;
    assert(0 < n * n) by (nonlinear_arith)
        requires
            0 < n,
    ;
}

/// Every pair of distinct on-board squares differ in their row or in their column.
pub proof fn lemma_square_unique(a: int, b: int, n: int)
    requires
        0 < n,
        on_board(a, n),
        on_board(b, n),
        row_of(a, n) == row_of(b, n),
        col_of(a, n) == col_of(b, n),
    ensures
        a == b,
{
    lemma_square_parts(a, n);
    lemma_square_parts(b, n);
}

pub fn get_square(row: Row, col: Col, board_size: usize) -> (sq: Square)
    requires
        row * board_size + col <= usize::MAX,
    ensures
        sq == square_at(row as int, col as int, board_size as int),
{
    row * board_size + col
}

pub fn get_row(sq: Square, board_size: usize) -> (r: Row)
    requires
        board_size > 0,
    ensures
        r == row_of(sq as int, board_size as int),
{
    sq / board_size
}

pub fn get_col(sq: Square, board_size: usize) -> (c: Col)
    requires
        board_size > 0,
    ensures
        c == col_of(sq as int, board_size as int),
{
    sq % board_size
}

pub fn get_side_by_piece(piece: Piece) -> (r: Result<Side, String>)
    ensures
        match r {
            Ok(side) => crate::board::types::spec_side_of(piece) == Some(side),
            Err(_) => piece == Piece::EMPTY,
        },
{
    match piece {
        Piece::ATTACKER => Ok(Side::ATTACKERS),
        Piece::DEFENDER => Ok(Side::DEFENDERS),
        Piece::KING => Ok(Side::DEFENDERS),
        Piece::EMPTY => Err(String::from_str("Empty square has no side")),
    }
}

pub open spec fn spec_throne(n: int) -> int {
    square_at((n - 1) / 2, (n - 1) / 2, n)
}

/// The central square.
pub fn get_throne_sq(board_size: usize) -> (sq: Square)
    requires
        0 < board_size <= 16,
    ensures
        sq == spec_throne(board_size as int),
        sq < board_size * board_size,
{
    let center = (board_size - 1) / 2;
    proof {
        lemma_small_board(board_size as int);
        lemma_square_compose(center as int, center as int, board_size as int);
    }
    get_square(center, center, board_size)
}

pub open spec fn spec_corners(n: int) -> Seq<int> {
    seq![
        square_at(0, 0, n),
        square_at(0, n - 1, n),
        square_at(n - 1, 0, n),
        square_at(n - 1, n - 1, n),
    ]
}

pub open spec fn is_corner(sq: int, n: int) -> bool {
    sq == square_at(0, 0, n) || sq == square_at(0, n - 1, n) || sq == square_at(n - 1, 0, n)
        || sq == square_at(n - 1, n - 1, n)
}

/// The four corners: bottom left, bottom right, top left, top right.
pub fn get_corners_sq(board_size: usize) -> (v: Vec<Square>)
    requires
        0 < board_size <= 16,
    ensures
        v@.len() == 4,
        forall|i: int| 0 <= i < 4 ==> v@[i] == spec_corners(board_size as int)[i],
{
    let n = board_size;
    proof {
        lemma_small_board(n as int);
        lemma_square_compose(0, 0, n as int);
        lemma_square_compose(0, n - 1, n as int);
        lemma_square_compose(n - 1, 0, n as int);
        lemma_square_compose(n - 1, n - 1, n as int);
    }
    let mut v: Vec<Square> = Vec::new();
    v.push(get_square(0, 0, n));
    v.push(get_square(0, n - 1, n));
    v.push(get_square(n - 1, 0, n));
    v.push(get_square(n - 1, n - 1, n));
    v
}

pub fn get_top_left_sq(board_size: usize) -> (sq: Square)
    requires
        0 < board_size <= 16,
    ensures
        sq == square_at(board_size - 1, 0, board_size as int),
{
    proof {
        lemma_small_board(board_size as int);
        lemma_square_compose(board_size - 1, 0, board_size as int);
    }
    get_square(board_size - 1, 0, board_size)
}

pub fn get_top_right_sq(board_size: usize) -> (sq: Square)
    requires
        0 < board_size <= 16,
    ensures
        sq == square_at(board_size - 1, board_size - 1, board_size as int),
{
    proof {
        lemma_small_board(board_size as int);
        lemma_square_compose(board_size - 1, board_size - 1, board_size as int);
    }
    get_square(board_size - 1, board_size - 1, board_size)
}

pub fn get_bottom_left_sq(board_size: usize) -> (sq: Square)
    requires
        0 < board_size <= 16,
    ensures
        sq == square_at(0, 0, board_size as int),
{
    get_square(0, 0, board_size)
}

pub fn get_bottom_right_sq(board_size: usize) -> (sq: Square)
    requires
        0 < board_size <= 16,
    ensures
        sq == square_at(0, board_size - 1, board_size as int),
{
    get_square(0, board_size - 1, board_size)
}

// Neighbours. "Top" is towards higher ranks, "right" towards later files.

pub open spec fn spec_right(sq: int, n: int) -> Option<int> {
    if col_of(sq, n) + 1 >= n { None } else { Some(sq + 1) }
}

pub open spec fn spec_left(sq: int, n: int) -> Option<int> {
    if col_of(sq, n) == 0 { None } else { Some(sq - 1) }
}

pub open spec fn spec_top(sq: int, n: int) -> Option<int> {
    if row_of(sq, n) + 1 >= n { None } else { Some(sq + n) }
}

pub open spec fn spec_bottom(sq: int, n: int) -> Option<int> {
    if row_of(sq, n) == 0 { None } else { Some(sq - n) }
}

pub open spec fn spec_top_left(sq: int, n: int) -> Option<int> {
    if row_of(sq, n) + 1 >= n || col_of(sq, n) == 0 { None } else { Some(sq + n - 1) }
}

pub open spec fn spec_top_right(sq: int, n: int) -> Option<int> {
    if row_of(sq, n) + 1 >= n || col_of(sq, n) + 1 >= n { None } else { Some(sq + n + 1) }
}

pub open spec fn spec_bottom_left(sq: int, n: int) -> Option<int> {
    if row_of(sq, n) == 0 || col_of(sq, n) == 0 { None } else { Some(sq - n - 1) }
}

pub open spec fn spec_bottom_right(sq: int, n: int) -> Option<int> {
    if row_of(sq, n) == 0 || col_of(sq, n) + 1 >= n { None } else { Some(sq - n + 1) }
}

pub open spec fn opt_to_int(o: Option<usize>) -> Option<int> {
    match o {
        Some(x) => Some(x as int),
        None => None,
    }
}

/// The neighbours of a square that exist on the board stay on the board.
pub proof fn lemma_neighbors_on_board(sq: int, n: int)
    requires
        0 < n,
        on_board(sq, n),
    ensures
        spec_right(sq, n) matches Some(x) ==> on_board(x, n) && row_of(x, n) == row_of(sq, n)
            && col_of(x, n) == col_of(sq, n) + 1,
        spec_left(sq, n) matches Some(x) ==> on_board(x, n) && row_of(x, n) == row_of(sq, n)
            && col_of(x, n) == col_of(sq, n) - 1,
        spec_top(sq, n) matches Some(x) ==> on_board(x, n) && row_of(x, n) == row_of(sq, n) + 1
            && col_of(x, n) == col_of(sq, n),
        spec_bottom(sq, n) matches Some(x) ==> on_board(x, n) && row_of(x, n) == row_of(sq, n)
            - 1 && col_of(x, n) == col_of(sq, n),
        spec_top_left(sq, n) matches Some(x) ==> on_board(x, n),
        spec_top_right(sq, n) matches Some(x) ==> on_board(x, n),
        spec_bottom_left(sq, n) matches Some(x) ==> on_board(x, n),
        spec_bottom_right(sq, n) matches Some(x) ==> on_board(x, n),
{
    lemma_square_parts(sq, n);
    let r = row_of(sq, n);
    let c = col_of(sq, n);
    if c + 1 < n {
        lemma_square_compose(r, c + 1, n);
    }
    if c > 0 {
        lemma_square_compose(r, c - 1, n);
    }
    if r + 1 < n {
        lemma_square_compose(r + 1, c, n);
        assert(square_at(r + 1, c, n) == sq + n) by (nonlinear_arith)
            requires
                sq == r * n + c,
        ;
        if c > 0 {
            lemma_square_compose(r + 1, c - 1, n);
            assert(square_at(r + 1, c - 1, n) == sq + n - 1) by (nonlinear_arith)
                requires
                    sq == r * n + c,
            ;
        }
        if c + 1 < n {
            lemma_square_compose(r + 1, c + 1, n);
            assert(square_at(r + 1, c + 1, n) == sq + n + 1) by (nonlinear_arith)
                requires
                    sq == r * n + c,
            ;
        }
    }
    if r > 0 {
        lemma_square_compose(r - 1, c, n);
        assert(square_at(r - 1, c, n) == sq - n) by (nonlinear_arith)
            requires
                sq == r * n + c,
        ;
        if c > 0 {
            lemma_square_compose(r - 1, c - 1, n);
            assert(square_at(r - 1, c - 1, n) == sq - n - 1) by (nonlinear_arith)
                requires
                    sq == r * n + c,
            ;
        }
        if c + 1 < n {
            lemma_square_compose(r - 1, c + 1, n);
            assert(square_at(r - 1, c + 1, n) == sq - n + 1) by (nonlinear_arith)
                requires
                    sq == r * n + c,
            ;
        }
    }
}

pub fn get_right_neighbor(sq: Square, board_size: usize) -> (r: Option<Square>)
    requires
        board_size > 0,
        sq < usize::MAX,
    ensures
        opt_to_int(r) == spec_right(sq as int, board_size as int),
{
    let col = get_col(sq, board_size);
    if col + 1 >= board_size {
        return None;
    }
    Some(sq + 1)
}

pub fn get_left_neighbor(sq: Square, board_size: usize) -> (r: Option<Square>)
    requires
        board_size > 0,
    ensures
        opt_to_int(r) == spec_left(sq as int, board_size as int),
{
    let col = get_col(sq, board_size);
    if col == 0 {
        return None;
    }
    assert(sq > 0) by {
        if sq == 0 {
            assert(0usize % board_size == 0);
        }
    }
    Some(sq - 1)
}

pub fn get_top_neighbor(sq: Square, board_size: usize) -> (r: Option<Square>)
    requires
        board_size > 0,
        sq + board_size <= usize::MAX,
    ensures
        opt_to_int(r) == spec_top(sq as int, board_size as int),
{
    let row = get_row(sq, board_size);
    if row + 1 >= board_size {
        return None;
    }
    Some(sq + board_size)
}

pub fn get_bottom_neighbor(sq: Square, board_size: usize) -> (r: Option<Square>)
    requires
        board_size > 0,
    ensures
        opt_to_int(r) == spec_bottom(sq as int, board_size as int),
{
    let row = get_row(sq, board_size);
    if row == 0 {
        return None;
    }
    proof {
        lemma_fundamental_div_mod(sq as int, board_size as int);
        assert(sq as int >= board_size) by (nonlinear_arith)
            requires
                sq == board_size * (sq / board_size) + sq % board_size,
                sq / board_size >= 1,
                sq % board_size >= 0,
                board_size > 0,
        ;
    }
    Some(sq - board_size)
}

pub fn get_top_left_neighbor(sq: Square, board_size: usize) -> (r: Option<Square>)
    requires
        board_size > 0,
        sq + board_size <= usize::MAX,
    ensures
        opt_to_int(r) == spec_top_left(sq as int, board_size as int),
{
    let row = get_row(sq, board_size);
    let col = get_col(sq, board_size);
    if row + 1 >= board_size || col == 0 {
        return None;
    }
    proof {
        lemma_fundamental_div_mod(sq as int, board_size as int);
    }
    Some(sq + board_size - 1)
}

pub fn get_top_right_neighbor(sq: Square, board_size: usize) -> (r: Option<Square>)
    requires
        board_size > 0,
        sq + board_size + 1 <= usize::MAX,
    ensures
        opt_to_int(r) == spec_top_right(sq as int, board_size as int),
{
    let row = get_row(sq, board_size);
    let col = get_col(sq, board_size);
    if row + 1 >= board_size || col + 1 >= board_size {
        return None;
    }
    Some(sq + board_size + 1)
}

pub fn get_bottom_left_neighbor(sq: Square, board_size: usize) -> (r: Option<Square>)
    requires
        board_size > 0,
    ensures
        opt_to_int(r) == spec_bottom_left(sq as int, board_size as int),
{
    let row = get_row(sq, board_size);
    let col = get_col(sq, board_size);
    if row == 0 || col == 0 {
        return None;
    }
    proof {
        lemma_fundamental_div_mod(sq as int, board_size as int);
        assert(sq as int >= board_size + 1) by (nonlinear_arith)
            requires
                sq == board_size * (sq / board_size) + sq % board_size,
                sq / board_size >= 1,
                sq % board_size >= 1,
                board_size > 0,
        ;
    }
    Some(sq - board_size - 1)
}

pub fn get_bottom_right_neighbor(sq: Square, board_size: usize) -> (r: Option<Square>)
    requires
        board_size > 0,
    ensures
        opt_to_int(r) == spec_bottom_right(sq as int, board_size as int),
{
    let row = get_row(sq, board_size);
    let col = get_col(sq, board_size);
    if row == 0 || col + 1 >= board_size {
        return None;
    }
    proof {
        lemma_fundamental_div_mod(sq as int, board_size as int);
        assert(sq as int >= board_size) by (nonlinear_arith)
            requires
                sq == board_size * (sq / board_size) + sq % board_size,
                sq / board_size >= 1,
                sq % board_size >= 0,
                board_size > 0,
        ;
    }
    Some(sq - board_size + 1)
}

pub open spec fn push_opt(s: Seq<int>, o: Option<int>) -> Seq<int> {
    match o {
        Some(x) => s.push(x),
        None => s,
    }
}

/// Orthogonal neighbours in the order top, bottom, left, right.
pub open spec fn spec_vh_neighbors(sq: int, n: int) -> Seq<int> {
    push_opt(
        push_opt(push_opt(push_opt(Seq::empty(), spec_top(sq, n)), spec_bottom(sq, n)), spec_left(sq, n)),
        spec_right(sq, n),
    )
}

/// All eight neighbours: the orthogonal ones, then top-left, top-right,
/// bottom-left, bottom-right.
pub open spec fn spec_all_neighbors(sq: int, n: int) -> Seq<int> {
    push_opt(
        push_opt(
            push_opt(push_opt(spec_vh_neighbors(sq, n), spec_top_left(sq, n)), spec_top_right(sq, n)),
            spec_bottom_left(sq, n),
        ),
        spec_bottom_right(sq, n),
    )
}

pub open spec fn usizes(v: Seq<usize>) -> Seq<int> {
    v.map_values(|x: usize| x as int)
}

fn push_some(v: &mut Vec<Square>, o: Option<Square>)
    ensures
        usizes(final(v)@) == push_opt(usizes(old(v)@), opt_to_int(o)),
{
    if let Some(n) = o {
        v.push(n);
        proof {
            assert(usizes(v@) =~= usizes(old(v)@).push(n as int));
        }
    }
}

pub fn get_vertical_horizontal_neighbors(sq: Square, board_size: usize) -> (v: Vec<Square>)
    requires
        board_size > 0,
        sq + board_size + 1 <= usize::MAX,
    ensures
        usizes(v@) == spec_vh_neighbors(sq as int, board_size as int),
{
    let mut neighbors: Vec<Square> = Vec::new();
    proof {
        assert(usizes(neighbors@) =~= Seq::<int>::empty());
    }
    push_some(&mut neighbors, get_top_neighbor(sq, board_size));
    push_some(&mut neighbors, get_bottom_neighbor(sq, board_size));
    push_some(&mut neighbors, get_left_neighbor(sq, board_size));
    push_some(&mut neighbors, get_right_neighbor(sq, board_size));
    neighbors
}

pub fn get_all_neighbors(sq: Square, board_size: usize) -> (v: Vec<Square>)
    requires
        board_size > 0,
        sq + board_size + 1 <= usize::MAX,
    ensures
        usizes(v@) == spec_all_neighbors(sq as int, board_size as int),
{
    let mut neighbors = get_vertical_horizontal_neighbors(sq, board_size);
    push_some(&mut neighbors, get_top_left_neighbor(sq, board_size));
    push_some(&mut neighbors, get_top_right_neighbor(sq, board_size));
    push_some(&mut neighbors, get_bottom_left_neighbor(sq, board_size));
    push_some(&mut neighbors, get_bottom_right_neighbor(sq, board_size));
    neighbors
}

pub open spec fn spec_is_edge(sq: int, n: int) -> bool {
    row_of(sq, n) == 0 || row_of(sq, n) == n - 1 || col_of(sq, n) == 0 || col_of(sq, n) == n - 1
}

pub fn is_edge_square(sq: Square, board_size: usize) -> (b: bool)
    requires
        board_size > 0,
    ensures
        b == spec_is_edge(sq as int, board_size as int),
{
    let row = get_row(sq, board_size);
    let col = get_col(sq, board_size);

    row == 0 || row == board_size - 1 || col == 0 || col == board_size - 1
}

/// The edge squares in increasing order.
pub fn get_edges_sq(board_size: usize) -> (v: Vec<Square>)
    requires
        0 < board_size <= 16,
    ensures
        forall|i: int| 0 <= i < v@.len() ==> on_board(#[trigger] v@[i] as int, board_size as int)
            && spec_is_edge(v@[i] as int, board_size as int),
        forall|i: int, j: int| 0 <= i < j < v@.len() ==> v@[i] < v@[j],
        forall|sq: int|
            on_board(sq, board_size as int) && spec_is_edge(sq, board_size as int) ==> v@.contains(
                sq as usize,
            ),
{
    proof {
        lemma_small_board(board_size as int);
    }
    let sqs = board_size * board_size;
    let mut v: Vec<Square> = Vec::new();
    let mut sq: usize = 0;
    while sq < sqs
        invariant
            sqs == board_size * board_size,
            0 < board_size <= 16,
            sq <= sqs,
            forall|i: int| 0 <= i < v@.len() ==> on_board(#[trigger] v@[i] as int, board_size as int)
                && spec_is_edge(v@[i] as int, board_size as int) && v@[i] < sq,
            forall|i: int, j: int| 0 <= i < j < v@.len() ==> v@[i] < v@[j],
            forall|s: int|
                0 <= s < sq && spec_is_edge(s, board_size as int) ==> v@.contains(s as usize),
        decreases sqs - sq,
    {
        if is_edge_square(sq, board_size) {
            let ghost prev = v@;
            v.push(sq);
            proof {
                assert forall|s: int|
                    0 <= s < sq + 1 && spec_is_edge(s, board_size as int) implies v@.contains(
                    s as usize,
                ) by {
                    if s == sq {
                        assert(v@[v@.len() - 1] == sq);
                    } else {
                        assert(prev.contains(s as usize));
                        let k = choose|k: int| 0 <= k < prev.len() && #[trigger] prev[k] == s as usize;
                        assert(v@[k] == s as usize);
                    }
                }
            }
        }
        sq += 1;
    }
    v
}

} // verus!

verus! {

pub open spec fn opt_is(o: Option<int>, x: int) -> bool {
    o == Some(x)
}

/// The orthogonal neighbours are the existing ones among top, bottom, left, right.
pub proof fn lemma_vh_neighbors(sq: int, n: int)
    requires
        0 < n,
        on_board(sq, n),
    ensures
        spec_vh_neighbors(sq, n).len() <= 4,
        forall|i: int|
            0 <= i < spec_vh_neighbors(sq, n).len() ==> on_board(#[trigger] spec_vh_neighbors(sq, n)[i], n)
                && (opt_is(spec_top(sq, n), spec_vh_neighbors(sq, n)[i]) || opt_is(spec_bottom(sq, n), spec_vh_neighbors(sq, n)[i])
                || opt_is(spec_left(sq, n), spec_vh_neighbors(sq, n)[i]) || opt_is(spec_right(sq, n), spec_vh_neighbors(sq, n)[i])),
        forall|x: int|
            (opt_is(spec_top(sq, n), x) || opt_is(spec_bottom(sq, n), x) || opt_is(spec_left(sq, n), x)
                || opt_is(spec_right(sq, n), x)) ==> spec_vh_neighbors(sq, n).contains(x),
{
    lemma_neighbors_on_board(sq, n);
    let e = Seq::<int>::empty();
    let s1 = push_opt(e, spec_top(sq, n));
    let s2 = push_opt(s1, spec_bottom(sq, n));
    let s3 = push_opt(s2, spec_left(sq, n));
    let s4 = push_opt(s3, spec_right(sq, n));
    assert forall|x: int|
        (opt_is(spec_top(sq, n), x) || opt_is(spec_bottom(sq, n), x) || opt_is(spec_left(sq, n), x)
            || opt_is(spec_right(sq, n), x)) implies s4.contains(x) by {
        if opt_is(spec_top(sq, n), x) {
            assert(s1[0] == x);
            assert(s4[0] == x);
        } else if opt_is(spec_bottom(sq, n), x) {
            assert(s2[s1.len() as int] == x);
            assert(s4[s1.len() as int] == x);
        } else if opt_is(spec_left(sq, n), x) {
            assert(s3[s2.len() as int] == x);
            assert(s4[s2.len() as int] == x);
        } else {
            assert(s4[s3.len() as int] == x);
        }
    }
}

/// Every square among the eight neighbours is on the board.
pub proof fn lemma_all_neighbors_on_board(sq: int, n: int)
    requires
        0 < n,
        on_board(sq, n),
    ensures
        spec_all_neighbors(sq, n).len() <= 8,
        forall|i: int|
            0 <= i < spec_all_neighbors(sq, n).len() ==> on_board(#[trigger] spec_all_neighbors(sq, n)[i], n),
{
    lemma_vh_neighbors(sq, n);
    lemma_neighbors_on_board(sq, n);
}

} // verus!
