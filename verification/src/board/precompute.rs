use vstd::prelude::*;
use crate::board::masks::{create_line_moves, count_ones, count_bits16, line_table_ok, pow2_16, lemma_pow2_16_bound, Mask};
use crate::board::types::{Col, Row, Square};
use crate::board::utils::{
    col_of, get_all_neighbors, get_bottom_left_neighbor, get_bottom_left_sq, get_bottom_neighbor,
    get_bottom_right_neighbor, get_bottom_right_sq, get_col, get_corners_sq, get_edges_sq,
    get_left_neighbor, get_right_neighbor, get_row, get_throne_sq, get_top_left_neighbor,
    get_top_left_sq, get_top_neighbor, get_top_right_neighbor, get_top_right_sq,
    get_vertical_horizontal_neighbors, lemma_small_board, on_board, opt_to_int, row_of,
    spec_all_neighbors, spec_bottom, spec_bottom_left, spec_bottom_right, spec_corners, spec_is_edge,
    spec_left, spec_right, spec_throne, spec_top, spec_top_left, spec_top_right, spec_vh_neighbors,
    square_at, usizes, valid_board_size,
};

verus! {

/// A sandwich around a square: the enemy in `between` is taken when the
/// square and `captor_sq` are both hostile to it.
#[derive(Clone, Copy, Debug, PartialEq, Eq, Structural)]
pub struct SandwichCapture {
    pub between_sq: Square,
    pub captor_sq: Square,
}

pub open spec fn sandwich_opt(o: Option<SandwichCapture>) -> Option<(int, int)> {
    match o {
        Some(c) => Some((c.between_sq as int, c.captor_sq as int)),
        None => None,
    }
}

pub open spec fn spec_right_sandwich(sq: int, n: int) -> Option<(int, int)> {
    if col_of(sq, n) + 2 >= n { None } else { Some((sq + 1, sq + 2)) }
}

pub open spec fn spec_left_sandwich(sq: int, n: int) -> Option<(int, int)> {
    if col_of(sq, n) < 2 { None } else { Some((sq - 1, sq - 2)) }
}

pub open spec fn spec_up_sandwich(sq: int, n: int) -> Option<(int, int)> {
    if row_of(sq, n) + 2 >= n { None } else { Some((sq + n, sq + 2 * n)) }
}

pub open spec fn spec_down_sandwich(sq: int, n: int) -> Option<(int, int)> {
    if row_of(sq, n) < 2 { None } else { Some((sq - n, sq - 2 * n)) }
}

pub open spec fn push_pair(s: Seq<(int, int)>, o: Option<(int, int)>) -> Seq<(int, int)> {
    match o {
        Some(x) => s.push(x),
        None => s,
    }
}

/// The sandwiches around a square, in the order right, left, up, down.
pub open spec fn spec_sandwiches(sq: int, n: int) -> Seq<(int, int)> {
    push_pair(
        push_pair(
            push_pair(push_pair(Seq::empty(), spec_right_sandwich(sq, n)), spec_left_sandwich(sq, n)),
            spec_up_sandwich(sq, n),
        ),
        spec_down_sandwich(sq, n),
    )
}

pub open spec fn sandwich_view(v: Seq<SandwichCapture>) -> Seq<(int, int)> {
    v.map_values(|c: SandwichCapture| (c.between_sq as int, c.captor_sq as int))
}

pub fn get_right_sandwich_capture(sq: Square, board_size: usize) -> (r: Option<SandwichCapture>)
    requires
        0 < board_size <= 16,
        sq + 2 <= usize::MAX,
    ensures
        sandwich_opt(r) == spec_right_sandwich(sq as int, board_size as int),
{
    let col = get_col(sq, board_size);
    proof {
        vstd::arithmetic::div_mod::lemma_mod_bound(sq as int, board_size as int);
    }

    if col + 2 >= board_size {
        return None;
    }

    Some(SandwichCapture { between_sq: sq + 1, captor_sq: sq + 2 })
}

pub fn get_left_sandwich_capture(sq: Square, board_size: usize) -> (r: Option<SandwichCapture>)
    requires
        board_size > 0,
    ensures
        sandwich_opt(r) == spec_left_sandwich(sq as int, board_size as int),
{
    let col = get_col(sq, board_size);

    if col < 2 {
        return None;
    }
    proof {
        vstd::arithmetic::div_mod::lemma_fundamental_div_mod(sq as int, board_size as int);
        assert(sq >= 2) by (nonlinear_arith)
            requires
                sq == board_size * (sq / board_size) + sq % board_size,
                sq / board_size >= 0,
                sq % board_size >= 2,
                board_size > 0,
        ;
    }

    Some(SandwichCapture { between_sq: sq - 1, captor_sq: sq - 2 })
}

pub fn get_up_sandwich_capture(sq: Square, board_size: usize) -> (r: Option<SandwichCapture>)
    requires
        0 < board_size <= 16,
        sq + 2 * board_size <= usize::MAX,
    ensures
        sandwich_opt(r) == spec_up_sandwich(sq as int, board_size as int),
{
    let row = get_row(sq, board_size);

    if row + 2 >= board_size {
        return None;
    }

    Some(SandwichCapture { between_sq: sq + board_size, captor_sq: sq + 2 * board_size })
}

pub fn get_down_sandwich_capture(sq: Square, board_size: usize) -> (r: Option<SandwichCapture>)
    requires
        0 < board_size <= 16,
    ensures
        sandwich_opt(r) == spec_down_sandwich(sq as int, board_size as int),
{
    let row = get_row(sq, board_size);

    if row < 2 {
        return None;
    }
    proof {
        vstd::arithmetic::div_mod::lemma_fundamental_div_mod(sq as int, board_size as int);
        assert(sq >= 2 * board_size) by (nonlinear_arith)
            requires
                sq == board_size * (sq / board_size) + sq % board_size,
                sq / board_size >= 2,
                sq % board_size >= 0,
                board_size > 0,
        ;
    }

    Some(SandwichCapture { between_sq: sq - board_size, captor_sq: sq - 2 * board_size })
}

fn push_sandwich(vec: &mut Vec<SandwichCapture>, o: Option<SandwichCapture>)
    ensures
        sandwich_view(final(vec)@) == push_pair(sandwich_view(old(vec)@), sandwich_opt(o)),
{
    if let Some(c) = o {
        vec.push(c);
        proof {
            assert(sandwich_view(vec@) =~= sandwich_view(old(vec)@).push(
                (c.between_sq as int, c.captor_sq as int),
            ));
        }
    }
}

/// Appends the sandwiches around `sq` to `vec`.
pub fn precompute_sandwich_captures(vec: &mut Vec<SandwichCapture>, sq: Square, board_size: usize)
    requires
        0 < board_size <= 16,
        sq + 2 * board_size <= usize::MAX,
    ensures
        sandwich_view(final(vec)@) == sandwich_view(old(vec)@) + spec_sandwiches(
            sq as int,
            board_size as int,
        ),
{
    let ghost start = sandwich_view(vec@);
    push_sandwich(vec, get_right_sandwich_capture(sq, board_size));
    push_sandwich(vec, get_left_sandwich_capture(sq, board_size));
    push_sandwich(vec, get_up_sandwich_capture(sq, board_size));
    push_sandwich(vec, get_down_sandwich_capture(sq, board_size));
    proof {
        let n = board_size as int;
        let s = sq as int;
        let e = Seq::<(int, int)>::empty();
        assert(push_pair(start, spec_right_sandwich(s, n)) =~= start + push_pair(
            e,
            spec_right_sandwich(s, n),
        ));
        assert(push_pair(push_pair(start, spec_right_sandwich(s, n)), spec_left_sandwich(s, n))
            =~= start + push_pair(push_pair(e, spec_right_sandwich(s, n)), spec_left_sandwich(s, n)));
        assert(push_pair(
            push_pair(push_pair(start, spec_right_sandwich(s, n)), spec_left_sandwich(s, n)),
            spec_up_sandwich(s, n),
        ) =~= start + push_pair(
            push_pair(push_pair(e, spec_right_sandwich(s, n)), spec_left_sandwich(s, n)),
            spec_up_sandwich(s, n),
        ));
        assert(sandwich_view(vec@) =~= start + spec_sandwiches(s, n));
    }
}

/// Geometry tables of one board size, computed once and shared by the board.
pub struct Precomputed {
    pub board_size: usize,
    pub row: Vec<Row>,
    pub col: Vec<Col>,
    pub throne_sq: usize,
    pub corners_sq: Vec<Square>,
    pub edges_sq: Vec<Square>,
    pub top_left_sq: usize,
    pub top_right_sq: usize,
    pub bottom_right_sq: usize,
    pub bottom_left_sq: usize,
    pub right_neighbor: Vec<Option<Square>>,
    pub left_neighbor: Vec<Option<Square>>,
    pub top_neighbor: Vec<Option<Square>>,
    pub bottom_neighbor: Vec<Option<Square>>,
    pub top_right_neighbor: Vec<Option<Square>>,
    pub top_left_neighbor: Vec<Option<Square>>,
    pub bottom_right_neighbor: Vec<Option<Square>>,
    pub bottom_left_neighbor: Vec<Option<Square>>,
    pub vertical_horizontal_neighbors: Vec<Vec<Square>>,
    pub all_neighbors: Vec<Vec<Square>>,
    pub manhattan_distance: Vec<Vec<usize>>,
    pub sandwich_captures: Vec<Vec<SandwichCapture>>,
    pub line_moves: Vec<Vec<Mask>>,
    pub possible_moves_count: Vec<Vec<u8>>,
}

pub open spec fn abs_diff(a: int, b: int) -> int {
    if a >= b { a - b } else { b - a }
}

impl Precomputed {
    /// The tables describe an `n`x`n` board.
    pub open spec fn wf(&self, n: int) -> bool {
        let sqs = n * n;
        &&& valid_board_size(n)
        &&& self.board_size == n
        &&& self.row@.len() == sqs
        &&& self.col@.len() == sqs
        &&& self.right_neighbor@.len() == sqs
        &&& self.left_neighbor@.len() == sqs
        &&& self.top_neighbor@.len() == sqs
        &&& self.bottom_neighbor@.len() == sqs
        &&& self.top_right_neighbor@.len() == sqs
        &&& self.top_left_neighbor@.len() == sqs
        &&& self.bottom_right_neighbor@.len() == sqs
        &&& self.bottom_left_neighbor@.len() == sqs
        &&& self.vertical_horizontal_neighbors@.len() == sqs
        &&& self.all_neighbors@.len() == sqs
        &&& self.manhattan_distance@.len() == sqs
        &&& self.sandwich_captures@.len() == sqs
        &&& forall|i: int| 0 <= i < sqs ==> #[trigger] self.row@[i] == row_of(i, n)
        &&& forall|i: int| 0 <= i < sqs ==> #[trigger] self.col@[i] == col_of(i, n)
        &&& forall|i: int| 0 <= i < sqs ==> opt_to_int(#[trigger] self.right_neighbor@[i]) == spec_right(i, n)
        &&& forall|i: int| 0 <= i < sqs ==> opt_to_int(#[trigger] self.left_neighbor@[i]) == spec_left(i, n)
        &&& forall|i: int| 0 <= i < sqs ==> opt_to_int(#[trigger] self.top_neighbor@[i]) == spec_top(i, n)
        &&& forall|i: int| 0 <= i < sqs ==> opt_to_int(#[trigger] self.bottom_neighbor@[i]) == spec_bottom(i, n)
        &&& forall|i: int| 0 <= i < sqs ==> opt_to_int(#[trigger] self.top_right_neighbor@[i]) == spec_top_right(i, n)
        &&& forall|i: int| 0 <= i < sqs ==> opt_to_int(#[trigger] self.top_left_neighbor@[i]) == spec_top_left(i, n)
        &&& forall|i: int| 0 <= i < sqs ==> opt_to_int(#[trigger] self.bottom_right_neighbor@[i]) == spec_bottom_right(i, n)
        &&& forall|i: int| 0 <= i < sqs ==> opt_to_int(#[trigger] self.bottom_left_neighbor@[i]) == spec_bottom_left(i, n)
        &&& forall|i: int|
            0 <= i < sqs ==> usizes((#[trigger] self.vertical_horizontal_neighbors@[i])@)
                == spec_vh_neighbors(i, n)
        &&& forall|i: int|
            0 <= i < sqs ==> usizes((#[trigger] self.all_neighbors@[i])@) == spec_all_neighbors(i, n)
        &&& forall|i: int|
            0 <= i < sqs ==> sandwich_view((#[trigger] self.sandwich_captures@[i])@) == spec_sandwiches(i, n)
        &&& forall|i: int|
            0 <= i < sqs ==> (#[trigger] self.manhattan_distance@[i])@.len() == sqs && forall|j: int|
                0 <= j < sqs ==> #[trigger] self.manhattan_distance@[i]@[j] == abs_diff(
                    row_of(i, n),
                    row_of(j, n),
                ) + abs_diff(col_of(i, n), col_of(j, n))
        &&& self.throne_sq == spec_throne(n)
        &&& self.corners_sq@.len() == 4
        &&& self.corners_sq@[0] == square_at(0, 0, n)
        &&& self.corners_sq@[1] == square_at(0, n - 1, n)
        &&& self.corners_sq@[2] == square_at(n - 1, 0, n)
        &&& self.corners_sq@[3] == square_at(n - 1, n - 1, n)
        &&& forall|i: int|
            0 <= i < self.edges_sq@.len() ==> on_board(#[trigger] self.edges_sq@[i] as int, n)
                && spec_is_edge(self.edges_sq@[i] as int, n)
        &&& self.top_left_sq == square_at(n - 1, 0, n)
        &&& self.top_right_sq == square_at(n - 1, n - 1, n)
        &&& self.bottom_left_sq == square_at(0, 0, n)
        &&& self.bottom_right_sq == square_at(0, n - 1, n)
        &&& line_table_ok(self.line_moves@, n)
        &&& self.possible_moves_count@.len() == n
        &&& forall|pos: int|
            0 <= pos < n ==> (#[trigger] self.possible_moves_count@[pos])@.len() == pow2_16(n)
                && forall|occ: int|
                0 <= occ < pow2_16(n) ==> #[trigger] self.possible_moves_count@[pos]@[occ]
                    == count_bits16(self.line_moves@[pos]@[occ], n)
    }

    pub fn new(board_size: usize) -> (p: Self)
        requires
            valid_board_size(board_size as int),
        ensures
            p.wf(board_size as int),
    {
        let n = board_size;
        proof {
            lemma_small_board(n as int);
        }
        let sqs = n * n;

        let mut row: Vec<Row> = Vec::new();
        let mut col: Vec<Col> = Vec::new();
        let mut right_neighbor: Vec<Option<Square>> = Vec::new();
        let mut left_neighbor: Vec<Option<Square>> = Vec::new();
        let mut top_neighbor: Vec<Option<Square>> = Vec::new();
        let mut bottom_neighbor: Vec<Option<Square>> = Vec::new();
        let mut top_right_neighbor: Vec<Option<Square>> = Vec::new();
        let mut top_left_neighbor: Vec<Option<Square>> = Vec::new();
        let mut bottom_right_neighbor: Vec<Option<Square>> = Vec::new();
        let mut bottom_left_neighbor: Vec<Option<Square>> = Vec::new();
        let mut vertical_horizontal_neighbors: Vec<Vec<Square>> = Vec::new();
        let mut all_neighbors: Vec<Vec<Square>> = Vec::new();
        let mut sandwich_captures: Vec<Vec<SandwichCapture>> = Vec::new();

        let mut i: usize = 0;
        while i < sqs
            invariant
                valid_board_size(n as int),
                sqs == n * n,
                sqs <= 256,
                i <= sqs,
                row@.len() == i,
                forall|k: int| 0 <= k < i ==> #[trigger] row@[k] == row_of(k, n as int),
                col@.len() == i,
                forall|k: int| 0 <= k < i ==> #[trigger] col@[k] == col_of(k, n as int),
                right_neighbor@.len() == i,
                forall|k: int| 0 <= k < i ==> opt_to_int(#[trigger] right_neighbor@[k]) == spec_right(k, n as int),
                left_neighbor@.len() == i,
                forall|k: int| 0 <= k < i ==> opt_to_int(#[trigger] left_neighbor@[k]) == spec_left(k, n as int),
                top_neighbor@.len() == i,
                forall|k: int| 0 <= k < i ==> opt_to_int(#[trigger] top_neighbor@[k]) == spec_top(k, n as int),
                bottom_neighbor@.len() == i,
                forall|k: int| 0 <= k < i ==> opt_to_int(#[trigger] bottom_neighbor@[k]) == spec_bottom(k, n as int),
                top_right_neighbor@.len() == i,
                forall|k: int| 0 <= k < i ==> opt_to_int(#[trigger] top_right_neighbor@[k]) == spec_top_right(k, n as int),
                top_left_neighbor@.len() == i,
                forall|k: int| 0 <= k < i ==> opt_to_int(#[trigger] top_left_neighbor@[k]) == spec_top_left(k, n as int),
                bottom_right_neighbor@.len() == i,
                forall|k: int| 0 <= k < i ==> opt_to_int(#[trigger] bottom_right_neighbor@[k]) == spec_bottom_right(k, n as int),
                bottom_left_neighbor@.len() == i,
                forall|k: int| 0 <= k < i ==> opt_to_int(#[trigger] bottom_left_neighbor@[k]) == spec_bottom_left(k, n as int),
                vertical_horizontal_neighbors@.len() == i,
                forall|k: int| 0 <= k < i ==> usizes((#[trigger] vertical_horizontal_neighbors@[k])@) == spec_vh_neighbors(k, n as int),
                all_neighbors@.len() == i,
                forall|k: int| 0 <= k < i ==> usizes((#[trigger] all_neighbors@[k])@) == spec_all_neighbors(k, n as int),
                sandwich_captures@.len() == i,
                forall|k: int| 0 <= k < i ==> sandwich_view((#[trigger] sandwich_captures@[k])@) == spec_sandwiches(k, n as int),
            decreases sqs - i,
        {
            row.push(get_row(i, n));
            col.push(get_col(i, n));
            left_neighbor.push(get_left_neighbor(i, n));
            right_neighbor.push(get_right_neighbor(i, n));
            top_neighbor.push(get_top_neighbor(i, n));
            bottom_neighbor.push(get_bottom_neighbor(i, n));
            top_right_neighbor.push(get_top_right_neighbor(i, n));
            top_left_neighbor.push(get_top_left_neighbor(i, n));
            bottom_right_neighbor.push(get_bottom_right_neighbor(i, n));
            bottom_left_neighbor.push(get_bottom_left_neighbor(i, n));
            vertical_horizontal_neighbors.push(get_vertical_horizontal_neighbors(i, n));
            all_neighbors.push(get_all_neighbors(i, n));
            let mut sw: Vec<SandwichCapture> = Vec::new();
            proof {
                assert(sandwich_view(sw@) =~= Seq::<(int, int)>::empty());
            }
            precompute_sandwich_captures(&mut sw, i, n);
            proof {
                assert(sandwich_view(sw@) =~= spec_sandwiches(i as int, n as int));
            }
            sandwich_captures.push(sw);
            i += 1;
        }

        let mut manhattan_distance: Vec<Vec<usize>> = Vec::new();
        let mut a: usize = 0;
        while a < sqs
            invariant
                valid_board_size(n as int),
                sqs == n * n,
                sqs <= 256,
                a <= sqs,
                row@.len() == sqs,
                col@.len() == sqs,
                forall|k: int|
                    0 <= k < sqs ==> #[trigger] row@[k] == row_of(k, n as int) && col@[k] == col_of(
                        k,
                        n as int,
                    ),
                manhattan_distance@.len() == a,
                forall|x: int|
                    0 <= x < a ==> (#[trigger] manhattan_distance@[x])@.len() == sqs && forall|
                        y: int,
                    |
                        0 <= y < sqs ==> #[trigger] manhattan_distance@[x]@[y] == abs_diff(
                            row_of(x, n as int),
                            row_of(y, n as int),
                        ) + abs_diff(col_of(x, n as int), col_of(y, n as int)),
            decreases sqs - a,
        {
            let mut line: Vec<usize> = Vec::new();
            let mut b: usize = 0;
            while b < sqs
                invariant
                    valid_board_size(n as int),
                    sqs == n * n,
                    sqs <= 256,
                    a < sqs,
                    b <= sqs,
                    row@.len() == sqs,
                    col@.len() == sqs,
                    forall|k: int|
                        0 <= k < sqs ==> #[trigger] row@[k] == row_of(k, n as int) && col@[k]
                            == col_of(k, n as int),
                    line@.len() == b,
                    forall|y: int|
                        0 <= y < b ==> #[trigger] line@[y] == abs_diff(
                            row_of(a as int, n as int),
                            row_of(y, n as int),
                        ) + abs_diff(col_of(a as int, n as int), col_of(y, n as int)),
                decreases sqs - b,
            {
                let ra = row[a];
                let rb = row[b];
                let ca = col[a];
                let cb = col[b];
                proof {
                    vstd::arithmetic::div_mod::lemma_div_is_ordered_by_denominator(
                        a as int,
                        1,
                        n as int,
                    );
                    vstd::arithmetic::div_mod::lemma_div_is_ordered_by_denominator(
                        b as int,
                        1,
                        n as int,
                    );
                    vstd::arithmetic::div_mod::lemma_mod_bound(a as int, n as int);
                    vstd::arithmetic::div_mod::lemma_mod_bound(b as int, n as int);
                }
                let dr = if ra >= rb { ra - rb } else { rb - ra };
                let dc = if ca >= cb { ca - cb } else { cb - ca };
                line.push(dr + dc);
                b += 1;
            }
            manhattan_distance.push(line);
            a += 1;
        }

        let line_moves = create_line_moves(n);
        proof {
            lemma_pow2_16_bound(n as int);
        }
        let mut possible_moves_count: Vec<Vec<u8>> = Vec::new();
        let mut pos: usize = 0;
        while pos < n
            invariant
                valid_board_size(n as int),
                line_table_ok(line_moves@, n as int),
                1 <= pow2_16(n as int) <= 65536,
                pos <= n,
                possible_moves_count@.len() == pos,
                forall|p: int|
                    0 <= p < pos ==> (#[trigger] possible_moves_count@[p])@.len() == pow2_16(n as int)
                        && forall|occ: int|
                        0 <= occ < pow2_16(n as int) ==> #[trigger] possible_moves_count@[p]@[occ]
                            == count_bits16(line_moves@[p]@[occ], n as int),
            decreases n - pos,
        {
            let mut counts: Vec<u8> = Vec::new();
            let mut occ: usize = 0;
            let states = line_moves[pos].len();
            while occ < states
                invariant
                    valid_board_size(n as int),
                    line_table_ok(line_moves@, n as int),
                    pos < n,
                    states == line_moves@[pos as int]@.len(),
                    states == pow2_16(n as int),
                    occ <= states,
                    counts@.len() == occ,
                    forall|o: int|
                        0 <= o < occ ==> #[trigger] counts@[o] == count_bits16(
                            line_moves@[pos as int]@[o],
                            n as int,
                        ),
                decreases states - occ,
            {
                let c = count_ones(line_moves[pos][occ], n);
                counts.push(c as u8);
                occ += 1;
            }
            possible_moves_count.push(counts);
            pos += 1;
        }

        Precomputed {
            board_size: n,
            row,
            col,
            left_neighbor,
            right_neighbor,
            top_neighbor,
            bottom_neighbor,
            top_right_neighbor,
            top_left_neighbor,
            bottom_right_neighbor,
            bottom_left_neighbor,
            vertical_horizontal_neighbors,
            all_neighbors,
            manhattan_distance,
            throne_sq: get_throne_sq(n),
            corners_sq: get_corners_sq(n),
            edges_sq: get_edges_sq(n),
            top_left_sq: get_top_left_sq(n),
            top_right_sq: get_top_right_sq(n),
            bottom_right_sq: get_bottom_right_sq(n),
            bottom_left_sq: get_bottom_left_sq(n),
            sandwich_captures,
            line_moves,
            possible_moves_count,
        }
    }
}

} // verus!
