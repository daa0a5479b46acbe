use vstd::prelude::*;
use crate::board::Board;
use crate::board::rules::{spec_board_size, RulesEnum};
use crate::board::masks::{build_line_mask_dir, nearest_candidate, spec_nearest_occupied, Direction};
use crate::board::types::{Piece, Side, Square};
use crate::board::utils::{
    col_of, get_square, is_corner, lemma_neighbors_on_board, lemma_square_parts, opt_to_int, row_of,
    spec_bottom, spec_left, spec_right, spec_throne, spec_top, square_at,
};
use crate::moves::capture::{is_capture_possible, spec_sandwiched};
use crate::moves::movegen::{move_pairs, MAX_MOVES};
use crate::moves::mv::Move;
use crate::utils::bits::{bit16, lemma_bit16_ext};

verus! {

/// The four directions in which a capturing piece can close in on a target.
#[derive(Clone, Copy, Debug, PartialEq, Eq, Structural)]
pub enum Way {
    Left,
    Right,
    Top,
    Bottom,
}

/// Moves that capture, for the side to move, in the order they were found.
pub struct CaptureGen {
    pub captures: Vec<Move>,
    pub count: usize,
}

/// The neighbour of `sq` in direction `way`, if any.
pub open spec fn spec_way_step(sq: int, way: Way, n: int) -> Option<int> {
    match way {
        Way::Left => spec_left(sq, n),
        Way::Right => spec_right(sq, n),
        Way::Top => spec_top(sq, n),
        Way::Bottom => spec_bottom(sq, n),
    }
}

pub open spec fn spec_opposite_way(way: Way) -> Way {
    match way {
        Way::Left => Way::Right,
        Way::Right => Way::Left,
        Way::Top => Way::Bottom,
        Way::Bottom => Way::Top,
    }
}

/// What the capture generator reads of a board: squares, row and column
/// occupancy, side to move and variant.
pub type CaptureView = (Seq<Piece>, Seq<u16>, Seq<u16>, Side, RulesEnum);

pub open spec fn cap_view(b: &Board) -> CaptureView {
    (b.board@, b.row_occ@, b.col_occ@, b.side_to_move, b.rules)
}

/// The nearest occupied square from `to` in direction `way`, or -1.
pub open spec fn spec_find_capture(v: CaptureView, to: int, way: Way) -> int {
    let n = spec_board_size(v.4) as int;
    let row = row_of(to, n);
    let col = col_of(to, n);
    match way {
        Way::Left => match spec_nearest_occupied(v.1[row], col, Direction::Down, n) {
            Some(c) => square_at(row, c, n),
            None => -1,
        },
        Way::Right => match spec_nearest_occupied(v.1[row], col, Direction::Up, n) {
            Some(c) => square_at(row, c, n),
            None => -1,
        },
        Way::Top => match spec_nearest_occupied(v.2[col], row, Direction::Up, n) {
            Some(r) => square_at(r, col, n),
            None => -1,
        },
        Way::Bottom => match spec_nearest_occupied(v.2[col], row, Direction::Down, n) {
            Some(r) => square_at(r, col, n),
            None => -1,
        },
    }
}

/// A piece of `side`; the king plays with the defenders.
pub open spec fn is_our_piece(p: Piece, side: Side) -> bool {
    match side {
        Side::ATTACKERS => p == Piece::ATTACKER,
        Side::DEFENDERS => p == Piece::DEFENDER || p == Piece::KING,
    }
}

/// The plain piece of `side`.
pub open spec fn side_piece(side: Side) -> Piece {
    match side {
        Side::ATTACKERS => Piece::ATTACKER,
        Side::DEFENDERS => Piece::DEFENDER,
    }
}

/// A piece of the side to move, put on the empty square next to `target` in
/// direction `way` (neither a corner nor the throne), would sandwich it
/// against the square on the other side.
#[verifier::opaque]
pub open spec fn spec_capture_possible_in_way(v: CaptureView, target: int, way: Way) -> bool {
    let n = spec_board_size(v.4) as int;
    match (spec_way_step(target, way, n), spec_way_step(target, spec_opposite_way(way), n)) {
        (Some(first), Some(last)) => {
            &&& v.0[first] == Piece::EMPTY
            &&& !is_corner(first, n)
            &&& first != spec_throne(n)
            &&& spec_sandwiched(
                v.0.update(first, side_piece(v.3)),
                v.4,
                n,
                target,
                first,
                last,
            )
        },
        _ => false,
    }
}

/// The capture onto `to` by the piece found in direction `w`, when it is ours.
#[verifier::opaque]
pub open spec fn probe_pairs(v: CaptureView, to: int, w: Way) -> Seq<(int, int)> {
    let f = spec_find_capture(v, to, w);
    if f != -1 && is_our_piece(v.0[f], v.3) {
        seq![(f, to)]
    } else {
        Seq::empty()
    }
}

/// As `probe_pairs`, skipping the direction the target lies in.
pub open spec fn probe_if(v: CaptureView, to: int, way: Way, w: Way) -> Seq<(int, int)> {
    if w != spec_opposite_way(way) {
        probe_pairs(v, to, w)
    } else {
        Seq::empty()
    }
}

/// The captures of `target` by a move onto its neighbour in direction `way`:
/// pieces found below, left, above and right of that square, in that order.
pub open spec fn way_captures(v: CaptureView, target: int, way: Way) -> Seq<(int, int)> {
    let to = spec_way_step(target, way, spec_board_size(v.4) as int).unwrap();
    probe_if(v, to, way, Way::Bottom) + probe_if(v, to, way, Way::Left) + probe_if(v, to, way, Way::Top)
        + probe_if(v, to, way, Way::Right)
}

pub open spec fn way_if(v: CaptureView, target: int, way: Way) -> Seq<(int, int)> {
    if spec_capture_possible_in_way(v, target, way) {
        way_captures(v, target, way)
    } else {
        Seq::empty()
    }
}

/// The captures of one target, closing in from the right, left, top and bottom.
pub open spec fn target_captures(v: CaptureView, target: int) -> Seq<(int, int)> {
    way_if(v, target, Way::Right) + way_if(v, target, Way::Left) + way_if(v, target, Way::Top) + way_if(
        v,
        target,
        Way::Bottom,
    )
}

/// The listed pieces of the side not to move.
pub open spec fn enemy_list(b: &Board) -> Seq<Square> {
    if b.side_to_move == Side::ATTACKERS {
        b.defenders@.subrange(0, b.defenders_count as int)
    } else {
        b.attackers@.subrange(0, b.attackers_count as int)
    }
}

pub open spec fn captures_upto(v: CaptureView, l: Seq<Square>, k: int) -> Seq<(int, int)>
    decreases k,
{
    if k <= 0 {
        Seq::empty()
    } else {
        captures_upto(v, l, k - 1) + target_captures(v, l[k - 1] as int)
    }
}

/// The capturing moves of the side to move, target by target in list order.
pub open spec fn spec_generate_captures(b: &Board) -> Seq<(int, int)> {
    captures_upto(cap_view(b), enemy_list(b), enemy_list(b).len() as int)
}

/// The move from `f` to `t` captures, as the generator finds captures: `t`
/// is beside a listed enemy piece that a piece of the side to move on `t`
/// would take (closing in from the other side of `t`'s direction), and the
/// nearest piece from `t` in some other direction is `f`, one of ours.
pub open spec fn capturing_slide(b: &Board, f: int, t: int) -> bool {
    let v = cap_view(b);
    let n = b.size();
    exists|k: int, way: Way, w: Way|
        {
            &&& 0 <= k < enemy_list(b).len()
            &&& #[trigger] spec_capture_possible_in_way(v, enemy_list(b)[k] as int, way)
            &&& spec_way_step(enemy_list(b)[k] as int, way, n) == Some(t)
            &&& w != spec_opposite_way(way)
            &&& f == #[trigger] spec_find_capture(v, t, w)
            &&& f != -1
            &&& is_our_piece(v.0[f], v.3)
        }
}

proof fn lemma_concat_contains<A>(a: Seq<A>, b: Seq<A>, x: A)
    ensures
        (a + b).contains(x) <==> a.contains(x) || b.contains(x),
{
    if (a + b).contains(x) {
        let i = choose|i: int| 0 <= i < (a + b).len() && (a + b)[i] == x;
        if i >= a.len() {
            assert(b[i - a.len()] == x);
        }
    }
    if a.contains(x) {
        let i = choose|i: int| 0 <= i < a.len() && a[i] == x;
        assert((a + b)[i] == x);
    }
    if b.contains(x) {
        let i = choose|i: int| 0 <= i < b.len() && b[i] == x;
        assert((a + b)[a.len() + i] == x);
    }
}

proof fn lemma_probe_if_contains(v: CaptureView, to: int, way: Way, w: Way, p: (int, int))
    ensures
        probe_if(v, to, way, w).contains(p) <==> (w != spec_opposite_way(way) && p.1 == to && p.0
            == spec_find_capture(v, to, w) && p.0 != -1 && is_our_piece(v.0[p.0], v.3)),
{
    reveal(probe_pairs);
    if probe_if(v, to, way, w).contains(p) {
        let i = choose|i: int| 0 <= i < probe_if(v, to, way, w).len() && probe_if(v, to, way, w)[i] == p;
    }
    if w != spec_opposite_way(way) && p.1 == to && p.0 == spec_find_capture(v, to, w) && p.0 != -1 && is_our_piece(
        v.0[p.0],
        v.3,
    ) {
        assert(probe_if(v, to, way, w)[0] == p);
    }
}

proof fn lemma_target_captures_contains(v: CaptureView, target: int, p: (int, int))
    ensures
        target_captures(v, target).contains(p) <==> exists|way: Way, w: Way|
            {
                &&& #[trigger] spec_capture_possible_in_way(v, target, way)
                &&& spec_way_step(target, way, spec_board_size(v.4) as int) == Some(p.1)
                &&& w != spec_opposite_way(way)
                &&& p.0 == #[trigger] spec_find_capture(v, p.1, w)
                &&& p.0 != -1
                &&& is_our_piece(v.0[p.0], v.3)
            },
{
    reveal(spec_capture_possible_in_way);
    let n = spec_board_size(v.4) as int;
    let ways = seq![Way::Right, Way::Left, Way::Top, Way::Bottom];
    let ws = seq![Way::Bottom, Way::Left, Way::Top, Way::Right];
    assert forall|way: Way| #[trigger] way_if(v, target, way).contains(p) <==> (spec_capture_possible_in_way(
        v,
        target,
        way,
    ) && exists|w: Way|
        {
            &&& spec_way_step(target, way, n) == Some(p.1)
            &&& w != spec_opposite_way(way)
            &&& p.0 == #[trigger] spec_find_capture(v, p.1, w)
            &&& p.0 != -1
            &&& is_our_piece(v.0[p.0], v.3)
        }) by {
        if spec_capture_possible_in_way(v, target, way) {
            let to = spec_way_step(target, way, n).unwrap();
            assert(spec_way_step(target, way, n) == Some(to));
            let a = probe_if(v, to, way, Way::Bottom);
            let b = probe_if(v, to, way, Way::Left);
            let c = probe_if(v, to, way, Way::Top);
            let d = probe_if(v, to, way, Way::Right);
            lemma_concat_contains(a + b + c, d, p);
            lemma_concat_contains(a + b, c, p);
            lemma_concat_contains(a, b, p);
            lemma_probe_if_contains(v, to, way, Way::Bottom, p);
            lemma_probe_if_contains(v, to, way, Way::Left, p);
            lemma_probe_if_contains(v, to, way, Way::Top, p);
            lemma_probe_if_contains(v, to, way, Way::Right, p);
            if exists|w: Way|
                {
                    &&& spec_way_step(target, way, n) == Some(p.1)
                    &&& w != spec_opposite_way(way)
                    &&& p.0 == #[trigger] spec_find_capture(v, p.1, w)
                    &&& p.0 != -1
                    &&& is_our_piece(v.0[p.0], v.3)
                } {
                let w = choose|w: Way|
                    {
                        &&& spec_way_step(target, way, n) == Some(p.1)
                        &&& w != spec_opposite_way(way)
                        &&& p.0 == #[trigger] spec_find_capture(v, p.1, w)
                        &&& p.0 != -1
                        &&& is_our_piece(v.0[p.0], v.3)
                    };
                match w {
                    Way::Bottom => {},
                    Way::Left => {},
                    Way::Top => {},
                    Way::Right => {},
                }
            }
            if way_if(v, target, way).contains(p) {
                assert(way_captures(v, target, way) == a + b + c + d);
                if a.contains(p) {
                    assert(spec_find_capture(v, p.1, Way::Bottom) == p.0);
                } else if b.contains(p) {
                    assert(spec_find_capture(v, p.1, Way::Left) == p.0);
                } else if c.contains(p) {
                    assert(spec_find_capture(v, p.1, Way::Top) == p.0);
                } else {
                    assert(spec_find_capture(v, p.1, Way::Right) == p.0);
                }
            }
        }
    }
    let r = way_if(v, target, Way::Right);
    let l = way_if(v, target, Way::Left);
    let t = way_if(v, target, Way::Top);
    let bo = way_if(v, target, Way::Bottom);
    lemma_concat_contains(r + l + t, bo, p);
    lemma_concat_contains(r + l, t, p);
    lemma_concat_contains(r, l, p);
    assert(r.contains(p) == way_if(v, target, Way::Right).contains(p));
    if exists|way: Way, w: Way|
        {
            &&& #[trigger] spec_capture_possible_in_way(v, target, way)
            &&& spec_way_step(target, way, n) == Some(p.1)
            &&& w != spec_opposite_way(way)
            &&& p.0 == #[trigger] spec_find_capture(v, p.1, w)
            &&& p.0 != -1
            &&& is_our_piece(v.0[p.0], v.3)
        } {
        let (way, w) = choose|way: Way, w: Way|
            {
                &&& #[trigger] spec_capture_possible_in_way(v, target, way)
                &&& spec_way_step(target, way, n) == Some(p.1)
                &&& w != spec_opposite_way(way)
                &&& p.0 == #[trigger] spec_find_capture(v, p.1, w)
                &&& p.0 != -1
                &&& is_our_piece(v.0[p.0], v.3)
            };
        assert(way_if(v, target, way).contains(p));
        match way {
            Way::Right => {},
            Way::Left => {},
            Way::Top => {},
            Way::Bottom => {},
        }
    }
    if target_captures(v, target).contains(p) {
        if r.contains(p) {
            assert(way_if(v, target, Way::Right).contains(p));
        } else if l.contains(p) {
            assert(way_if(v, target, Way::Left).contains(p));
        } else if t.contains(p) {
            assert(way_if(v, target, Way::Top).contains(p));
        } else {
            assert(way_if(v, target, Way::Bottom).contains(p));
        }
    }
}

proof fn lemma_captures_upto_contains(v: CaptureView, l: Seq<Square>, k: int, p: (int, int))
    requires
        0 <= k <= l.len(),
    ensures
        captures_upto(v, l, k).contains(p) <==> exists|j: int| 0 <= j < k && #[trigger] target_captures(v, l[j] as int).contains(p),
    decreases k,
{
    if k > 0 {
        lemma_captures_upto_contains(v, l, k - 1, p);
        lemma_concat_contains(captures_upto(v, l, k - 1), target_captures(v, l[k - 1] as int), p);
        if exists|j: int| 0 <= j < k && #[trigger] target_captures(v, l[j] as int).contains(p) {
            let j = choose|j: int| 0 <= j < k && #[trigger] target_captures(v, l[j] as int).contains(p);
            if j < k - 1 {
                assert(exists|j: int| 0 <= j < k - 1 && #[trigger] target_captures(v, l[j] as int).contains(p));
            }
        }
    }
}

/// The generator finds exactly the capturing slides of the side to move.
pub proof fn lemma_generate_captures_are_capturing_slides(b: &Board, f: int, t: int)
    requires
        b.wf(),
    ensures
        spec_generate_captures(b).contains((f, t)) <==> capturing_slide(b, f, t),
{
    let v = cap_view(b);
    let l = enemy_list(b);
    let p = (f, t);
    lemma_captures_upto_contains(v, l, l.len() as int, p);
    if spec_generate_captures(b).contains(p) {
        let j = choose|j: int| 0 <= j < l.len() && #[trigger] target_captures(v, l[j] as int).contains(p);
        lemma_target_captures_contains(v, l[j] as int, p);
        let (way, w) = choose|way: Way, w: Way|
            {
                &&& #[trigger] spec_capture_possible_in_way(v, l[j] as int, way)
                &&& spec_way_step(l[j] as int, way, spec_board_size(v.4) as int) == Some(p.1)
                &&& w != spec_opposite_way(way)
                &&& p.0 == #[trigger] spec_find_capture(v, p.1, w)
                &&& p.0 != -1
                &&& is_our_piece(v.0[p.0], v.3)
            };
        assert(spec_capture_possible_in_way(v, l[j] as int, way) && spec_find_capture(v, t, w) == f);
    }
    if capturing_slide(b, f, t) {
        let (k, way, w) = choose|k: int, way: Way, w: Way|
            {
                &&& 0 <= k < enemy_list(b).len()
                &&& #[trigger] spec_capture_possible_in_way(v, enemy_list(b)[k] as int, way)
                &&& spec_way_step(enemy_list(b)[k] as int, way, b.size()) == Some(t)
                &&& w != spec_opposite_way(way)
                &&& f == #[trigger] spec_find_capture(v, t, w)
                &&& f != -1
                &&& is_our_piece(v.0[f], v.3)
            };
        lemma_target_captures_contains(v, l[k] as int, p);
        assert(spec_capture_possible_in_way(v, l[k] as int, way) && spec_find_capture(v, p.1, w) == p.0);
        assert(target_captures(v, l[k] as int).contains(p));
    }
}

proof fn lemma_nearest_unique(occ: u16, pos: int, dir: Direction, n: int, i: int, j: int)
    requires
        nearest_candidate(occ, pos, dir, n, i),
        nearest_candidate(occ, pos, dir, n, j),
    ensures
        i == j,
{
    assert(bit16(occ, i) && bit16(occ, j));
}

proof fn lemma_nearest_is(occ: u16, pos: int, dir: Direction, n: int, r: int)
    requires
        r == -1 ==> forall|i: int| !nearest_candidate(occ, pos, dir, n, i),
        r != -1 ==> nearest_candidate(occ, pos, dir, n, r),
    ensures
        spec_nearest_occupied(occ, pos, dir, n) == (if r == -1 {
            None::<int>
        } else {
            Some(r)
        }),
{
    if r != -1 {
        let c = choose|i: int| nearest_candidate(occ, pos, dir, n, i);
        lemma_nearest_unique(occ, pos, dir, n, c, r);
    }
}

/// Boards in order whose squares agree have the same occupancy masks.
pub proof fn lemma_occ_determined(a: &Board, b: &Board)
    requires
        a.wf(),
        b.wf(),
        a.rules == b.rules,
        a.board@ == b.board@,
    ensures
        a.row_occ@ == b.row_occ@,
        a.col_occ@ == b.col_occ@,
{
    let n = a.size();
    assert forall|r: int| 0 <= r < n implies a.row_occ@[r] == b.row_occ@[r] by {
        assert forall|i: int| 0 <= i < 16 implies bit16(a.row_occ@[r], i) == bit16(b.row_occ@[r], i) by {
            if i < n {
                assert(bit16(a.row_occ@[r], i) <==> a.board@[square_at(r, i, n)] != Piece::EMPTY);
                assert(bit16(b.row_occ@[r], i) <==> b.board@[square_at(r, i, n)] != Piece::EMPTY);
            }
        }
        lemma_bit16_ext(a.row_occ@[r], b.row_occ@[r]);
    }
    assert forall|c: int| 0 <= c < n implies a.col_occ@[c] == b.col_occ@[c] by {
        assert forall|i: int| 0 <= i < 16 implies bit16(a.col_occ@[c], i) == bit16(b.col_occ@[c], i) by {
            if i < n {
                assert(bit16(a.col_occ@[c], i) <==> a.board@[square_at(i, c, n)] != Piece::EMPTY);
                assert(bit16(b.col_occ@[c], i) <==> b.board@[square_at(i, c, n)] != Piece::EMPTY);
            }
        }
        lemma_bit16_ext(a.col_occ@[c], b.col_occ@[c]);
    }
    assert(a.row_occ@ =~= b.row_occ@);
    assert(a.col_occ@ =~= b.col_occ@);
}

proof fn lemma_line_square(r: int, c: int, n: int)
    requires
        0 <= r < n,
        0 <= c < n,
    ensures
        0 <= square_at(r, c, n) < n * n,
{
    assert(0 <= r * n + c < n * n) by (nonlinear_arith)
        requires
            0 <= r < n,
            0 <= c < n,
    ;
}

/// A square found is a square of the board.
proof fn lemma_find_in_range(v: CaptureView, to: int, w: Way)
    requires
        0 <= to < spec_board_size(v.4) * spec_board_size(v.4),
    ensures
        spec_find_capture(v, to, w) == -1 || 0 <= spec_find_capture(v, to, w) < spec_board_size(v.4)
            * spec_board_size(v.4),
{
    let n = spec_board_size(v.4) as int;
    lemma_square_parts(to, n);
    let row = row_of(to, n);
    let col = col_of(to, n);
    let (occ, pos, dir) = match w {
        Way::Left => (v.1[row], col, Direction::Down),
        Way::Right => (v.1[row], col, Direction::Up),
        Way::Top => (v.2[col], row, Direction::Up),
        Way::Bottom => (v.2[col], row, Direction::Down),
    };
    if exists|i: int| nearest_candidate(occ, pos, dir, n, i) {
        let c = choose|i: int| nearest_candidate(occ, pos, dir, n, i);
        match w {
            Way::Left | Way::Right => lemma_line_square(row, c, n),
            _ => lemma_line_square(c, col, n),
        }
    }
}

/// A capture in a given way needs squares on both sides of the target.
proof fn lemma_possible_has_step(v: CaptureView, target: int, way: Way)
    requires
        spec_capture_possible_in_way(v, target, way),
    ensures
        spec_way_step(target, way, spec_board_size(v.4) as int) is Some,
{
    reveal(spec_capture_possible_in_way);
}

proof fn lemma_board_small(b: &Board)
    requires
        b.wf(),
    ensures
        b.sqs() <= 121,
        0 < b.size() <= 11,
{
    let n = b.size();
    assert(n * n <= 121) by (nonlinear_arith)
        requires
            0 < n <= 11,
    ;
}

/// The listed pieces of the side not to move.
fn enemy_squares(board: &Board) -> (v: Vec<Square>)
    requires
        board.wf(),
    ensures
        v@ == enemy_list(board),
        forall|k: int| 0 <= k < v@.len() ==> #[trigger] v@[k] < board.sqs(),
        v@.len() <= board.sqs(),
{
    let mut v: Vec<Square> = Vec::new();
    let attackers_move = board.side_to_move == Side::ATTACKERS;
    let count = if attackers_move {
        board.defenders_count as usize
    } else {
        board.attackers_count as usize
    };
    let mut i: usize = 0;
    while i < count
        invariant
            board.wf(),
            attackers_move == (board.side_to_move == Side::ATTACKERS),
            count == (if attackers_move {
                board.defenders_count as int
            } else {
                board.attackers_count as int
            }),
            i <= count,
            v@ == (if attackers_move {
                board.defenders@.subrange(0, i as int)
            } else {
                board.attackers@.subrange(0, i as int)
            }),
            forall|k: int| 0 <= k < v@.len() ==> #[trigger] v@[k] < board.sqs(),
        decreases count - i,
    {
        if attackers_move {
            v.push(board.defenders[i]);
            proof {
                assert(board.defenders@.subrange(0, i + 1) =~= board.defenders@.subrange(0, i as int).push(
                    board.defenders@[i as int],
                ));
            }
        } else {
            v.push(board.attackers[i]);
            proof {
                assert(board.attackers@.subrange(0, i + 1) =~= board.attackers@.subrange(0, i as int).push(
                    board.attackers@[i as int],
                ));
            }
        }
        i += 1;
    }
    v
}

impl CaptureGen {
    pub open spec fn wf(&self) -> bool {
        self.count <= self.captures@.len()
    }

    /// The captures found so far.
    pub open spec fn listed(&self) -> Seq<Move> {
        self.captures@.subrange(0, self.count as int)
    }

    pub fn new() -> (g: Self)
        ensures
            g.wf(),
            g.count == 0,
            g.captures@.len() == MAX_MOVES,
            forall|i: int| 0 <= i < MAX_MOVES ==> (#[trigger] g.captures@[i]).spec_raw() == 0,
    {
        let mut captures: Vec<Move> = Vec::new();
        let mut i: usize = 0;
        while i < MAX_MOVES
            invariant
                i <= MAX_MOVES,
                captures@.len() == i,
                forall|k: int| 0 <= k < i ==> (#[trigger] captures@[k]).spec_raw() == 0,
            decreases MAX_MOVES - i,
        {
            captures.push(Move::create_null());
            i += 1;
        }
        CaptureGen { captures, count: 0 }
    }

    /// The nearest occupied square from `to` in direction `way`, or -1 when
    /// the line is free to the edge.
    pub fn find_capture(&self, board: &Board, to: Square, way: Way) -> (r: i8)
        requires
            board.wf(),
            to < board.sqs(),
        ensures
            r as int == spec_find_capture(cap_view(board), to as int, way),
    {
        let n = board.board_size();
        proof {
            lemma_board_small(board);
            lemma_square_parts(to as int, n as int);
        }
        let row = board.precomputed.row[to];
        let col = board.precomputed.col[to];
        match way {
            Way::Left => {
                let c = build_line_mask_dir(board.row_occ[row], col, Direction::Down, n);
                proof {
                    lemma_nearest_is(board.row_occ@[row as int], col as int, Direction::Down, n as int, c as int);
                }
                if c == -1 {
                    return -1;
                }
                proof {
                    lemma_square_parts(square_at(row as int, c as int, n as int), n as int);
                    assert(row * n + c < n * n) by (nonlinear_arith)
                        requires
                            row < n,
                            0 <= c < n,
                    ;
                }
                get_square(row, c as usize, n) as i8
            },
            Way::Right => {
                let c = build_line_mask_dir(board.row_occ[row], col, Direction::Up, n);
                proof {
                    lemma_nearest_is(board.row_occ@[row as int], col as int, Direction::Up, n as int, c as int);
                }
                if c == -1 {
                    return -1;
                }
                proof {
                    assert(row * n + c < n * n) by (nonlinear_arith)
                        requires
                            row < n,
                            0 <= c < n,
                    ;
                }
                get_square(row, c as usize, n) as i8
            },
            Way::Top => {
                let r = build_line_mask_dir(board.col_occ[col], row, Direction::Up, n);
                proof {
                    lemma_nearest_is(board.col_occ@[col as int], row as int, Direction::Up, n as int, r as int);
                }
                if r == -1 {
                    return -1;
                }
                proof {
                    assert(r * n + col < n * n) by (nonlinear_arith)
                        requires
                            col < n,
                            0 <= r < n,
                    ;
                }
                get_square(r as usize, col, n) as i8
            },
            Way::Bottom => {
                let r = build_line_mask_dir(board.col_occ[col], row, Direction::Down, n);
                proof {
                    lemma_nearest_is(board.col_occ@[col as int], row as int, Direction::Down, n as int, r as int);
                }
                if r == -1 {
                    return -1;
                }
                proof {
                    assert(r * n + col < n * n) by (nonlinear_arith)
                        requires
                            col < n,
                            0 <= r < n,
                    ;
                }
                get_square(r as usize, col, n) as i8
            },
        }
    }
    fn add_capture(&mut self, mv: Move)
        requires
            old(self).wf(),
            old(self).count < usize::MAX,
        ensures
            final(self).wf(),
            final(self).count == old(self).count + 1,
            final(self).listed() == old(self).listed().push(mv),
    {
        if self.count < self.captures.len() {
            self.captures.set(self.count, mv);
        } else {
            self.captures.push(mv);
        }
        self.count += 1;
        proof {
            assert(self.listed() =~= old(self).listed().push(mv));
        }
    }

    fn get_square_on_way(&self, board: &Board, square: Square, way: Way) -> (r: Option<Square>)
        requires
            board.wf(),
            square < board.sqs(),
        ensures
            opt_to_int(r) == spec_way_step(square as int, way, board.size()),
            r matches Some(x) ==> x < board.sqs(),
    {
        proof {
            lemma_neighbors_on_board(square as int, board.size());
        }
        match way {
            Way::Left => board.precomputed.left_neighbor[square],
            Way::Right => board.precomputed.right_neighbor[square],
            Way::Top => board.precomputed.top_neighbor[square],
            Way::Bottom => board.precomputed.bottom_neighbor[square],
        }
    }

    fn get_opposite_way(&self, way: Way) -> (r: Way)
        ensures
            r == spec_opposite_way(way),
    {
        match way {
            Way::Left => Way::Right,
            Way::Right => Way::Left,
            Way::Top => Way::Bottom,
            Way::Bottom => Way::Top,
        }
    }

    /// Records the capture onto `to` by the piece found in direction `w`, if
    /// it belongs to `side`.
    fn probe(&mut self, board: &Board, to: Square, w: Way, side: Side)
        requires
            old(self).wf(),
            old(self).count < usize::MAX - 4,
            board.wf(),
            to < board.sqs(),
            side == board.side_to_move,
        ensures
            final(self).wf(),
            move_pairs(final(self).listed()) == move_pairs(old(self).listed()) + probe_pairs(cap_view(board), to as int, w),
            final(self).count <= old(self).count + 1,
    {
        let f = self.find_capture(board, to, w);
        proof {
            reveal(probe_pairs);
        }
        if f != -1 {
            proof {
                lemma_board_small(board);
                lemma_find_in_range(cap_view(board), to as int, w);
            }
            let fsq = f as usize;
            let p = board.board[fsq];
            let ours = match side {
                Side::ATTACKERS => p == Piece::ATTACKER,
                Side::DEFENDERS => p == Piece::DEFENDER || p == Piece::KING,
            };
            if ours {
                let mv = Move::new(fsq, to);
                let ghost before = self.listed();
                self.add_capture(mv);
                proof {
                    assert(move_pairs(self.listed()) =~= move_pairs(before) + seq![(fsq as int, to as int)]);
                }
                return;
            }
        }
        proof {
            assert(move_pairs(self.listed()) =~= move_pairs(self.listed()) + Seq::<(int, int)>::empty());
        }
    }
    /// Whether a piece of `side` put next to `target` in direction `way` would
    /// capture it. The piece is put on the board for the test and taken off again.
    fn is_capture_possible_in_way(&self, target: Square, way: Way, board: &mut Board, side: Side) -> (res: bool)
        requires
            old(board).wf(),
            target < old(board).sqs(),
            side == old(board).side_to_move,
        ensures
            res == spec_capture_possible_in_way(cap_view(old(board)), target as int, way),
            final(board).wf(),
            final(board).board@ == old(board).board@,
            final(board).same_except_cells(old(board)),
            final(board).king_sq == old(board).king_sq,
            final(board).attackers_count == old(board).attackers_count,
            final(board).defenders_count == old(board).defenders_count,
    {
        proof {
            reveal(spec_capture_possible_in_way);
        }
        let first = self.get_square_on_way(board, target, way);
        let opposite = self.get_opposite_way(way);
        let last = self.get_square_on_way(board, target, opposite);
        let piece = match side {
            Side::ATTACKERS => Piece::ATTACKER,
            Side::DEFENDERS => Piece::DEFENDER,
        };
        if let (Some(f), Some(l)) = (first, last) {
            let corners = &board.precomputed.corners_sq;
            let at_corner = f == corners[0] || f == corners[1] || f == corners[2] || f == corners[3];
            if board.board[f] == Piece::EMPTY && !at_corner && f != board.precomputed.throne_sq {
                let ghost o = *board;
                proof {
                    crate::board::state::lemma_count_bound(o.board@, piece, o.sqs());
                }
                let _ = board.set_piece(f, piece);
                let res = is_capture_possible(board, target, f, l);
                board.clear_piece(f);
                proof {
                    assert(board.board@ =~= o.board@);
                }
                return res;
            }
        }
        false
    }

    /// Records the moves that capture `target` by landing next to it in
    /// direction `way`.
    fn generate_attack_captures_for_way(&mut self, target: Square, board: &Board, way: Way, side: Side)
        requires
            old(self).wf(),
            old(self).count < usize::MAX - 16,
            board.wf(),
            target < board.sqs(),
            spec_way_step(target as int, way, board.size()) is Some,
            side == board.side_to_move,
        ensures
            final(self).wf(),
            move_pairs(final(self).listed()) == move_pairs(old(self).listed()) + way_captures(cap_view(board), target as int, way),
            final(self).count <= old(self).count + 4,
    {
        let step = self.get_square_on_way(board, target, way);
        let to = match step {
            Some(x) => x,
            None => 0,
        };
        let opposite = self.get_opposite_way(way);
        let ghost p0 = move_pairs(self.listed());
        let ghost tt = to as int;
        if opposite != Way::Bottom {
            self.probe(board, to, Way::Bottom, side);
        }
        let ghost p1 = move_pairs(self.listed());
        if opposite != Way::Left {
            self.probe(board, to, Way::Left, side);
        }
        let ghost p2 = move_pairs(self.listed());
        if opposite != Way::Top {
            self.probe(board, to, Way::Top, side);
        }
        let ghost p3 = move_pairs(self.listed());
        if opposite != Way::Right {
            self.probe(board, to, Way::Right, side);
        }
        proof {
            let v = cap_view(board);
            assert(p1 =~= p0 + probe_if(v, tt, way, Way::Bottom));
            assert(p2 =~= p1 + probe_if(v, tt, way, Way::Left));
            assert(p3 =~= p2 + probe_if(v, tt, way, Way::Top));
            assert(move_pairs(self.listed()) =~= p3 + probe_if(v, tt, way, Way::Right));
            assert(move_pairs(self.listed()) =~= p0 + way_captures(v, target as int, way));
        }
    }

    /// Records the captures of `target` in direction `way`, if a capture there is possible.
    fn way_round(&mut self, target: Square, board: &mut Board, way: Way, side: Side)
        requires
            old(self).wf(),
            old(self).count < usize::MAX - 16,
            old(board).wf(),
            target < old(board).sqs(),
            side == old(board).side_to_move,
        ensures
            final(self).wf(),
            move_pairs(final(self).listed()) == move_pairs(old(self).listed()) + way_if(cap_view(old(board)), target as int, way),
            final(self).count <= old(self).count + 4,
            final(board).wf(),
            final(board).board@ == old(board).board@,
            final(board).same_except_cells(old(board)),
            final(board).king_sq == old(board).king_sq,
            final(board).attackers_count == old(board).attackers_count,
            final(board).defenders_count == old(board).defenders_count,
            cap_view(final(board)) == cap_view(old(board)),
    {
        let ghost b0 = *board;
        if self.is_capture_possible_in_way(target, way, board, side) {
            proof {
                lemma_occ_determined(board, &b0);
                lemma_possible_has_step(cap_view(&b0), target as int, way);
            }
            self.generate_attack_captures_for_way(target, board, way, side);
        } else {
            proof {
                assert(move_pairs(self.listed()) =~= move_pairs(self.listed()) + Seq::<(int, int)>::empty());
            }
        }
        proof {
            lemma_occ_determined(board, &b0);
        }
    }

    /// Tries the four ways to capture `target`, right, left, top and bottom.
    fn target_captures_into(&mut self, target: Square, board: &mut Board, side: Side)
        requires
            old(self).wf(),
            old(self).count < usize::MAX - 64,
            old(board).wf(),
            target < old(board).sqs(),
            side == old(board).side_to_move,
        ensures
            final(self).wf(),
            move_pairs(final(self).listed()) == move_pairs(old(self).listed()) + target_captures(cap_view(old(board)), target as int),
            final(self).count <= old(self).count + 16,
            final(board).wf(),
            final(board).board@ == old(board).board@,
            final(board).same_except_cells(old(board)),
            final(board).king_sq == old(board).king_sq,
            final(board).attackers_count == old(board).attackers_count,
            final(board).defenders_count == old(board).defenders_count,
            cap_view(final(board)) == cap_view(old(board)),
    {
        let ghost v = cap_view(board);
        let ghost p0 = move_pairs(self.listed());
        let ghost t = target as int;
        self.way_round(target, board, Way::Right, side);
        let ghost p1 = move_pairs(self.listed());
        self.way_round(target, board, Way::Left, side);
        let ghost p2 = move_pairs(self.listed());
        self.way_round(target, board, Way::Top, side);
        let ghost p3 = move_pairs(self.listed());
        self.way_round(target, board, Way::Bottom, side);
        proof {
            assert(move_pairs(self.listed()) =~= p0 + target_captures(v, t));
        }
    }

    /// Finds every capture available to the side to move, and keeps them in
    /// the order they were found. The board is used for trial placements and
    /// given back with the same squares.
    pub fn generate_captures(&mut self, board: &mut Board)
        requires
            old(self).wf(),
            old(board).wf(),
        ensures
            final(self).wf(),
            move_pairs(final(self).listed()) == spec_generate_captures(old(board)),
            final(board).wf(),
            final(board).board@ == old(board).board@,
            final(board).same_except_cells(old(board)),
            final(board).king_sq == old(board).king_sq,
            final(board).attackers_count == old(board).attackers_count,
            final(board).defenders_count == old(board).defenders_count,
    {
        self.count = 0;
        let side = board.side_to_move;
        let ghost b0 = *board;
        let ghost v = cap_view(board);
        let enemies = enemy_squares(board);
        proof {
            lemma_board_small(board);
            assert(move_pairs(self.listed()) =~= captures_upto(v, enemies@, 0));
        }
        let mut i: usize = 0;
        while i < enemies.len()
            invariant
                self.wf(),
                self.count <= 16 * i,
                enemies@ == enemy_list(&b0),
                enemies@.len() <= 121,
                forall|k: int| 0 <= k < enemies@.len() ==> #[trigger] enemies@[k] < b0.sqs(),
                i <= enemies@.len(),
                move_pairs(self.listed()) == captures_upto(v, enemies@, i as int),
                board.wf(),
                board.board@ == b0.board@,
                board.same_except_cells(&b0),
                board.king_sq == b0.king_sq,
                board.attackers_count == b0.attackers_count,
                board.defenders_count == b0.defenders_count,
                cap_view(board) == v,
                v == cap_view(&b0),
                side == b0.side_to_move,
                b0.sqs() == board.sqs(),
            decreases enemies@.len() - i,
        {
            let target = enemies[i];
            self.target_captures_into(target, board, side);
            proof {
                assert(move_pairs(self.listed()) =~= captures_upto(v, enemies@, i + 1));
            }
            i += 1;
        }
    }

    /// Whether `mv` is among the captures found.
    pub fn is_move_exists(&self, mv: Move) -> (b: bool)
        requires
            self.wf(),
        ensures
            b == self.listed().contains(mv),
    {
        let mut i: usize = 0;
        while i < self.count
            invariant
                self.wf(),
                i <= self.count,
                forall|k: int| 0 <= k < i ==> self.captures@[k] != mv,
            decreases self.count - i,
        {
            if self.captures[i] == mv {
                proof {
                    assert(self.listed()[i as int] == mv);
                }
                return true;
            }
            i += 1;
        }
        proof {
            if self.listed().contains(mv) {
                let k = choose|k: int| 0 <= k < self.listed().len() && self.listed()[k] == mv;
                assert(self.captures@[k] == mv);
            }
        }
        false
    }
}

} // verus!
