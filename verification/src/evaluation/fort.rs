use vstd::prelude::*;
use crate::board::Board;
use crate::board::constants::HOLE;
use crate::board::types::{OptionalSquare, Piece, Square};
use crate::board::utils::{
    is_corner, is_edge_square, lemma_all_neighbors_on_board, lemma_neighbors_on_board, lemma_vh_neighbors, opt_to_int,
    spec_all_neighbors, spec_bottom, spec_is_edge, spec_left, spec_right, spec_top, spec_vh_neighbors, usizes,
};
use crate::board::state::lemma_count_bound;
use crate::evaluation::surround::lemma_vh_table_ok;
use crate::utils::bfs::{bfs, is_walk, neighbors_ok, spec_reachable};

verus! {

/// The orthogonal neighbour lists of the board.
pub open spec fn vh(b: &Board) -> Seq<Vec<Square>> {
    b.precomputed.vertical_horizontal_neighbors@
}

/// The squares attackers stand on or may move over: their own squares and
/// the empty squares other than the corners.
pub open spec fn attacker_mask(cells: Seq<Piece>, n: int) -> Seq<bool> {
    Seq::new(
        cells.len(),
        |s: int| cells[s] == Piece::ATTACKER || (cells[s] == Piece::EMPTY && !is_corner(s, n)),
    )
}

/// The squares the king's region spreads over: all but the defenders.
pub open spec fn open_mask(cells: Seq<Piece>) -> Seq<bool> {
    cells.map_values(|p: Piece| p != Piece::DEFENDER)
}

/// The neighbours of the listed squares, one list after another.
pub open spec fn ring(nb: Seq<Vec<Square>>, starts: Seq<Square>) -> Seq<Square>
    decreases starts.len(),
{
    if starts.len() == 0 {
        Seq::empty()
    } else {
        ring(nb, starts.drop_last()) + nb[starts.last() as int]@
    }
}

/// `s` is joined to a square holding `p` by a walk over attackers' squares.
pub open spec fn joined_to(nb: Seq<Vec<Square>>, n: int, cells: Seq<Piece>, p: Piece, s: int) -> bool {
    exists|w: Seq<int>| #[trigger] is_walk(attacker_mask(cells, n), nb, w) && cells[w[0]] == p && w.last() == s
}

/// The attackers' space: the squares of each region of attackers' squares
/// that holds both an attacker and an empty square, so that its attackers
/// can move.
pub open spec fn in_space(nb: Seq<Vec<Square>>, n: int, cells: Seq<Piece>, s: int) -> bool {
    joined_to(nb, n, cells, Piece::ATTACKER, s) && joined_to(nb, n, cells, Piece::EMPTY, s)
}

/// An attacker is reached from the king over squares free of defenders.
pub open spec fn contact(nb: Seq<Vec<Square>>, cells: Seq<Piece>, king: int) -> bool {
    exists|p: Seq<int>|
        #[trigger] is_walk(open_mask(cells), nb, p) && nb[king]@.contains(p[0] as usize) && cells[p.last()]
            == Piece::ATTACKER
}

proof fn lemma_ring_contains(nb: Seq<Vec<Square>>, starts: Seq<Square>, x: Square)
    requires
        forall|k: int| 0 <= k < starts.len() ==> 0 <= #[trigger] starts[k] < nb.len(),
    ensures
        ring(nb, starts).contains(x) <==> exists|k: int|
            0 <= k < starts.len() && #[trigger] nb[starts[k] as int]@.contains(x),
    decreases starts.len(),
{
    if starts.len() > 0 {
        let init = starts.drop_last();
        let last = nb[starts.last() as int]@;
        lemma_ring_contains(nb, init, x);
        let r = ring(nb, init);
        if (r + last).contains(x) {
            let i = choose|i: int| 0 <= i < (r + last).len() && (r + last)[i] == x;
            if i < r.len() {
                assert(r[i] == x);
                assert(r.contains(x));
                let k = choose|k: int| 0 <= k < init.len() && #[trigger] nb[init[k] as int]@.contains(x);
                assert(starts[k] == init[k]);
            } else {
                assert(last[i - r.len()] == x);
                assert(nb[starts[starts.len() - 1] as int]@.contains(x));
            }
        }
        if exists|k: int| 0 <= k < starts.len() && #[trigger] nb[starts[k] as int]@.contains(x) {
            let k = choose|k: int| 0 <= k < starts.len() && #[trigger] nb[starts[k] as int]@.contains(x);
            if k < starts.len() - 1 {
                assert(init[k] == starts[k]);
                assert(r.contains(x));
                let i = choose|i: int| 0 <= i < r.len() && r[i] == x;
                assert((r + last)[i] == x);
            } else {
                let j = choose|j: int| 0 <= j < last.len() && last[j] == x;
                assert((r + last)[r.len() + j] == x);
            }
        }
    }
}

/// The neighbours of each listed square, in list order.
fn ring_of(nb: &Vec<Vec<Square>>, starts: &Vec<Square>) -> (r: Vec<Square>)
    requires
        forall|k: int| 0 <= k < starts@.len() ==> #[trigger] starts@[k] < nb@.len(),
    ensures
        r@ == ring(nb@, starts@),
{
    let mut r: Vec<Square> = Vec::new();
    let mut i: usize = 0;
    while i < starts.len()
        invariant
            i <= starts@.len(),
            forall|k: int| 0 <= k < starts@.len() ==> #[trigger] starts@[k] < nb@.len(),
            r@ == ring(nb@, starts@.subrange(0, i as int)),
        decreases starts@.len() - i,
    {
        let list = &nb[starts[i]];
        let ghost before = r@;
        let mut j: usize = 0;
        while j < list.len()
            invariant
                j <= list@.len(),
                r@ == before + list@.subrange(0, j as int),
            decreases list@.len() - j,
        {
            r.push(list[j]);
            proof {
                assert(list@.subrange(0, j + 1) =~= list@.subrange(0, j as int).push(list@[j as int]));
            }
            j += 1;
        }
        proof {
            assert(list@.subrange(0, j as int) =~= list@);
            assert(starts@.subrange(0, i + 1).drop_last() =~= starts@.subrange(0, i as int));
        }
        i += 1;
    }
    proof {
        assert(starts@.subrange(0, i as int) =~= starts@);
    }
    r
}

/// The squares reached in one or more steps from the start squares over
/// passable squares; a start square counts only when it is reached again.
fn bfs_ts(pass: &Vec<bool>, nb: &Vec<Vec<Square>>, starts: &Vec<Square>) -> (r: Vec<bool>)
    requires
        neighbors_ok(nb@, pass@.len() as int),
        forall|k: int| 0 <= k < starts@.len() ==> #[trigger] starts@[k] < pass@.len(),
    ensures
        r@.len() == pass@.len(),
        forall|s: int|
            0 <= s < r@.len() ==> (#[trigger] r@[s] <==> spec_reachable(pass@, nb@, ring(nb@, starts@), s)),
{
    let first = ring_of(nb, starts);
    proof {
        assert forall|k: int| 0 <= k < first@.len() implies #[trigger] first@[k] < pass@.len() by {
            let x = first@[k];
            assert(ring(nb@, starts@).contains(x));
            lemma_ring_contains(nb@, starts@, x);
            let j = choose|j: int| 0 <= j < starts@.len() && #[trigger] nb@[starts@[j] as int]@.contains(x);
            let t = choose|t: int| 0 <= t < nb@[starts@[j] as int]@.len() && nb@[starts@[j] as int]@[t] == x;
            assert(nb@[starts@[j] as int]@[t] < pass@.len());
        }
    }
    bfs(pass, nb, &first)
}

/// A mask of the squares whose piece is `p` (or, with `equal` false, is not `p`).
fn piece_mask(board: &Board, p: Piece, equal: bool) -> (m: Vec<bool>)
    requires
        board.wf(),
    ensures
        m@ == board.board@.map_values(|q: Piece| (q == p) == equal),
{
    let n = board.board.len();
    let mut m: Vec<bool> = Vec::new();
    let mut i: usize = 0;
    while i < n
        invariant
            n == board.board@.len(),
            i <= n,
            m@ == board.board@.subrange(0, i as int).map_values(|q: Piece| (q == p) == equal),
        decreases n - i,
    {
        m.push((board.board[i] == p) == equal);
        proof {
            assert(board.board@.subrange(0, i + 1).map_values(|q: Piece| (q == p) == equal) =~= board.board@.subrange(
                0,
                i as int,
            ).map_values(|q: Piece| (q == p) == equal).push((board.board@[i as int] == p) == equal));
        }
        i += 1;
    }
    proof {
        assert(board.board@.subrange(0, n as int) =~= board.board@);
    }
    m
}

/// The listed attackers, as a list of squares.
fn attacker_list(board: &Board) -> (v: Vec<Square>)
    requires
        board.wf(),
    ensures
        v@ == board.attackers@.subrange(0, board.attackers_count as int),
        forall|k: int| 0 <= k < v@.len() ==> #[trigger] v@[k] < board.sqs(),
{
    let mut v: Vec<Square> = Vec::new();
    let count = board.attackers_count as usize;
    let mut i: usize = 0;
    while i < count
        invariant
            board.wf(),
            count == board.attackers_count,
            i <= count,
            v@ == board.attackers@.subrange(0, i as int),
            forall|k: int| 0 <= k < v@.len() ==> #[trigger] v@[k] < board.sqs(),
        decreases count - i,
    {
        v.push(board.attackers[i]);
        proof {
            assert(board.attackers@.subrange(0, i + 1) =~= board.attackers@.subrange(0, i as int).push(
                board.attackers@[i as int],
            ));
        }
        i += 1;
    }
    v
}

/// Whether `sq` is a corner of the board.
fn is_corner_sq(board: &Board, sq: Square) -> (b: bool)
    requires
        board.wf(),
    ensures
        b == is_corner(sq as int, board.size()),
{
    let c = &board.precomputed.corners_sq;
    sq == c[0] || sq == c[1] || sq == c[2] || sq == c[3]
}

/// The mask of attackers' squares.
fn attacker_squares_mask(board: &Board) -> (m: Vec<bool>)
    requires
        board.wf(),
    ensures
        m@ == attacker_mask(board.board@, board.size()),
{
    let n = board.board.len();
    let mut m: Vec<bool> = Vec::new();
    let mut i: usize = 0;
    while i < n
        invariant
            board.wf(),
            n == board.board@.len(),
            i <= n,
            m@.len() == i,
            forall|k: int| 0 <= k < i ==> #[trigger] m@[k] == attacker_mask(board.board@, board.size())[k],
        decreases n - i,
    {
        let p = board.board[i];
        let corner = is_corner_sq(board, i);
        m.push(p == Piece::ATTACKER || (p == Piece::EMPTY && !corner));
        i += 1;
    }
    proof {
        assert(m@ =~= attacker_mask(board.board@, board.size()));
    }
    m
}

/// The empty squares other than the corners.
fn free_squares(board: &Board) -> (v: Vec<Square>)
    requires
        board.wf(),
    ensures
        forall|k: int| 0 <= k < v@.len() ==> #[trigger] v@[k] < board.sqs(),
        forall|x: int|
            0 <= x < board.sqs() ==> (#[trigger] v@.contains(x as usize) <==> (board.board@[x] == Piece::EMPTY
                && !is_corner(x, board.size()))),
{
    let n = board.board.len();
    let mut v: Vec<Square> = Vec::new();
    let mut i: usize = 0;
    while i < n
        invariant
            board.wf(),
            n == board.board@.len(),
            i <= n,
            forall|k: int|
                0 <= k < v@.len() ==> #[trigger] v@[k] < i && board.board@[v@[k] as int] == Piece::EMPTY
                    && !is_corner(v@[k] as int, board.size()),
            forall|x: int|
                0 <= x < i && board.board@[x] == Piece::EMPTY && !is_corner(x, board.size()) ==> #[trigger] v@.contains(
                    x as usize,
                ),
        decreases n - i,
    {
        let corner = is_corner_sq(board, i);
        let ghost before = v@;
        if board.board[i] == Piece::EMPTY && !corner {
            v.push(i);
            proof {
                assert(v@[before.len() as int] == i);
                assert forall|x: int|
                    0 <= x < i + 1 && board.board@[x] == Piece::EMPTY && !is_corner(x, board.size()) implies #[trigger] v@.contains(
                    x as usize,
                ) by {
                    if x < i {
                        assert(before.contains(x as usize));
                        let j = choose|j: int| 0 <= j < before.len() && before[j] == x as usize;
                        assert(v@[j] == x as usize);
                    }
                }
            }
        }
        i += 1;
    }
    proof {
        assert forall|x: int| 0 <= x < board.sqs() && v@.contains(x as usize) implies (board.board@[x] == Piece::EMPTY
            && !is_corner(x, board.size())) by {
            let j = choose|j: int| 0 <= j < v@.len() && v@[j] == x as usize;
            assert(v@[j] < i);
        }
    }
    v
}

/// Which squares make up the attackers' space.
pub fn get_attackers_space(board: &Board) -> (space: Vec<bool>)
    requires
        board.wf(),
    ensures
        space@.len() == board.sqs(),
        forall|s: int|
            0 <= s < board.sqs() ==> (#[trigger] space@[s] <==> in_space(vh(board), board.size(), board.board@, s)),
{
    let n = board.board_size();
    let mask = attacker_squares_mask(board);
    let from_attackers = attacker_list(board);
    let from_free = free_squares(board);
    proof {
        lemma_vh_table_ok(&board.precomputed, n as int);
    }
    let ra = bfs(&mask, &board.precomputed.vertical_horizontal_neighbors, &from_attackers);
    let re = bfs(&mask, &board.precomputed.vertical_horizontal_neighbors, &from_free);
    let ghost nb = vh(board);
    let ghost cells = board.board@;
    let ghost nn = n as int;
    let sqs = board.board.len();
    let mut space: Vec<bool> = Vec::new();
    let mut i: usize = 0;
    while i < sqs
        invariant
            board.wf(),
            nb == vh(board),
            cells == board.board@,
            nn == board.size(),
            sqs == board.sqs(),
            mask@ == attacker_mask(cells, nn),
            ra@.len() == sqs,
            re@.len() == sqs,
            forall|s: int|
                0 <= s < sqs ==> (#[trigger] ra@[s] <==> spec_reachable(mask@, nb, from_attackers@, s)),
            forall|s: int| 0 <= s < sqs ==> (#[trigger] re@[s] <==> spec_reachable(mask@, nb, from_free@, s)),
            from_attackers@ == board.attackers@.subrange(0, board.attackers_count as int),
            forall|x: int|
                0 <= x < sqs ==> (#[trigger] from_free@.contains(x as usize) <==> (cells[x] == Piece::EMPTY
                    && !is_corner(x, nn))),
            i <= sqs,
            space@.len() == i,
            forall|s: int| 0 <= s < i ==> (#[trigger] space@[s] <==> in_space(nb, nn, cells, s)),
        decreases sqs - i,
    {
        let here = ra[i] && re[i];
        proof {
            let si = i as int;
            if ra@[si] {
                let w = choose|w: Seq<int>| #[trigger] is_walk(mask@, nb, w) && from_attackers@.contains(w[0] as usize) && w.last() == si;
                let j = choose|j: int| 0 <= j < from_attackers@.len() && from_attackers@[j] == w[0] as usize;
                assert(board.attackers@[j] == from_attackers@[j]);
                assert(joined_to(nb, nn, cells, Piece::ATTACKER, si));
            }
            if joined_to(nb, nn, cells, Piece::ATTACKER, si) {
                let w = choose|w: Seq<int>| #[trigger] is_walk(attacker_mask(cells, nn), nb, w) && cells[w[0]] == Piece::ATTACKER && w.last() == si;
                let k = board.piece_index_by_square@[w[0]] as int;
                assert(board.attackers@[k] == w[0]);
                assert(from_attackers@[k] == w[0] as usize);
                assert(spec_reachable(mask@, nb, from_attackers@, si));
            }
            if re@[si] {
                let w = choose|w: Seq<int>| #[trigger] is_walk(mask@, nb, w) && from_free@.contains(w[0] as usize) && w.last() == si;
                assert(joined_to(nb, nn, cells, Piece::EMPTY, si));
            }
            if joined_to(nb, nn, cells, Piece::EMPTY, si) {
                let w = choose|w: Seq<int>| #[trigger] is_walk(attacker_mask(cells, nn), nb, w) && cells[w[0]] == Piece::EMPTY && w.last() == si;
                assert(mask@[w[0]]);
                assert(spec_reachable(mask@, nb, from_free@, si));
            }
        }
        space.push(here);
        i += 1;
    }
    space
}

/// The square is in the attackers' space or holds an attacker.
pub open spec fn held(nb: Seq<Vec<Square>>, n: int, cells: Seq<Piece>, x: int) -> bool {
    in_space(nb, n, cells, x) || cells[x] == Piece::ATTACKER
}

/// Both squares exist and are held by the attackers, and the attackers'
/// space reaches at least one of them.
pub open spec fn flanked(nb: Seq<Vec<Square>>, n: int, cells: Seq<Piece>, a: Option<int>, b: Option<int>) -> bool {
    match (a, b) {
        (Some(x), Some(y)) => held(nb, n, cells, x) && held(nb, n, cells, y) && (in_space(nb, n, cells, x)
            || in_space(nb, n, cells, y)),
        _ => false,
    }
}

/// The defender on `d` can be taken: along a row or a column, both of its
/// sides are held by the attackers and a moving attacker can reach one.
pub open spec fn breakable(nb: Seq<Vec<Square>>, n: int, cells: Seq<Piece>, d: int) -> bool {
    &&& cells[d] == Piece::DEFENDER
    &&& (flanked(nb, n, cells, spec_left(d, n), spec_right(d, n)) || flanked(
        nb,
        n,
        cells,
        spec_top(d, n),
        spec_bottom(d, n),
    ))
}

/// No defender can be taken.
pub open spec fn stable(nb: Seq<Vec<Square>>, n: int, cells: Seq<Piece>) -> bool {
    forall|d: int| 0 <= d < cells.len() ==> !#[trigger] breakable(nb, n, cells, d)
}

/// Whether an attacker can be reached from the king over squares that hold no defender.
pub fn king_contacts_attackers(board: &Board) -> (b: bool)
    requires
        board.wf(),
        board.king_sq != HOLE,
    ensures
        b == contact(vh(board), board.board@, board.king_sq as int),
{
    let n = board.board_size();
    let mask = piece_mask(board, Piece::DEFENDER, false);
    let king = board.king_sq as usize;
    let mut starts: Vec<Square> = Vec::new();
    starts.push(king);
    let ghost nb = vh(board);
    let ghost cells = board.board@;
    proof {
        lemma_vh_table_ok(&board.precomputed, n as int);
        assert(mask@ =~= open_mask(cells));
        assert(starts@.drop_last() =~= Seq::<Square>::empty());
        assert(ring(nb, starts@.drop_last()) == Seq::<Square>::empty());
        assert(starts@.last() == king);
        assert(ring(nb, starts@) == ring(nb, starts@.drop_last()) + nb[king as int]@);
        assert(ring(nb, starts@) =~= nb[king as int]@);
    }
    let reached = bfs_ts(&mask, &board.precomputed.vertical_horizontal_neighbors, &starts);
    let mut i: usize = 0;
    while i < reached.len()
        invariant
            board.wf(),
            nb == vh(board),
            cells == board.board@,
            mask@ == open_mask(cells),
            king == board.king_sq,
            ring(nb, starts@) == nb[king as int]@,
            reached@.len() == cells.len(),
            i <= reached@.len(),
            forall|s: int|
                0 <= s < reached@.len() ==> (#[trigger] reached@[s] <==> spec_reachable(
                    mask@,
                    nb,
                    ring(nb, starts@),
                    s,
                )),
            forall|t: int| 0 <= t < i ==> !(#[trigger] reached@[t] && cells[t] == Piece::ATTACKER),
        decreases reached@.len() - i,
    {
        if reached[i] && board.board[i] == Piece::ATTACKER {
            proof {
                let p = choose|p: Seq<int>|
                    #[trigger] is_walk(mask@, nb, p) && ring(nb, starts@).contains(p[0] as usize) && p.last() == i;
                assert(contact(nb, cells, king as int));
            }
            return true;
        }
        i += 1;
    }
    proof {
        if contact(nb, cells, king as int) {
            let p = choose|p: Seq<int>|
                #[trigger] is_walk(open_mask(cells), nb, p) && nb[king as int]@.contains(p[0] as usize) && cells[p.last()]
                    == Piece::ATTACKER;
            let s = p.last();
            assert(spec_reachable(mask@, nb, ring(nb, starts@), s));
            assert(reached@[s]);
        }
    }
    false
}

/// Square `x` is held by the attackers as `space` marks them: it is in the
/// marked space or holds an attacker.
pub open spec fn held_in(space: Seq<bool>, cells: Seq<Piece>, x: int) -> bool {
    space[x] || cells[x] == Piece::ATTACKER
}

/// Both squares exist and are held, and one of them is in the marked space.
pub open spec fn flanked_in(space: Seq<bool>, cells: Seq<Piece>, a: Option<int>, b: Option<int>) -> bool {
    match (a, b) {
        (Some(x), Some(y)) => held_in(space, cells, x) && held_in(space, cells, y) && (space[x] || space[y]),
        _ => false,
    }
}

/// The defender on `d` can be taken with the attackers' space marked as in
/// `space`: its row or its column neighbours are flanking it.
pub open spec fn takeable(space: Seq<bool>, n: int, cells: Seq<Piece>, d: int) -> bool {
    &&& cells[d] == Piece::DEFENDER
    &&& (flanked_in(space, cells, spec_left(d, n), spec_right(d, n)) || flanked_in(
        space,
        cells,
        spec_top(d, n),
        spec_bottom(d, n),
    ))
}

/// With the space marked exactly where the attackers' space lies, a
/// defender can be taken exactly when it is breakable.
pub proof fn lemma_takeable_is_breakable(space: Seq<bool>, nb: Seq<Vec<Square>>, n: int, cells: Seq<Piece>, d: int)
    requires
        3 <= n <= 11,
        cells.len() == n * n,
        space.len() == n * n,
        0 <= d < n * n,
        forall|s: int| 0 <= s < n * n ==> (#[trigger] space[s] <==> in_space(nb, n, cells, s)),
    ensures
        takeable(space, n, cells, d) == breakable(nb, n, cells, d),
{
    lemma_neighbors_on_board(d, n);
    if let Some(x) = spec_left(d, n) {
        assert(space[x] == in_space(nb, n, cells, x));
    }
    if let Some(x) = spec_right(d, n) {
        assert(space[x] == in_space(nb, n, cells, x));
    }
    if let Some(x) = spec_top(d, n) {
        assert(space[x] == in_space(nb, n, cells, x));
    }
    if let Some(x) = spec_bottom(d, n) {
        assert(space[x] == in_space(nb, n, cells, x));
    }
}

/// Takes the first listed defender that can be taken off the board, with the
/// attackers' space as `attackers_space` marks it, and gives its square;
/// gives `HOLE`, and leaves the board alone, when there is none.
pub fn try_break_fort(attackers_space: &Vec<bool>, board: &mut Board) -> (r: OptionalSquare)
    requires
        old(board).wf(),
        attackers_space@.len() == old(board).sqs(),
    ensures
        r == HOLE ==> *final(board) == *old(board) && forall|k: int|
            0 <= k < old(board).defenders_count ==> !#[trigger] takeable(
                attackers_space@,
                old(board).size(),
                old(board).board@,
                old(board).defenders@[k] as int,
            ),
        r == HOLE ==> forall|d: int|
            0 <= d < old(board).sqs() ==> !#[trigger] takeable(attackers_space@, old(board).size(), old(board).board@, d),
        r != HOLE ==> exists|k: int|
            {
                &&& 0 <= k < old(board).defenders_count
                &&& old(board).defenders@[k] == r
                &&& takeable(attackers_space@, old(board).size(), old(board).board@, r as int)
                &&& forall|j: int|
                    0 <= j < k ==> !#[trigger] takeable(
                        attackers_space@,
                        old(board).size(),
                        old(board).board@,
                        old(board).defenders@[j] as int,
                    )
            },
        r != HOLE ==> 0 <= r < old(board).sqs() && final(board).removed(old(board), r as int),
{
    let ghost n = board.size();
    let ghost cells = board.board@;
    let ghost sp = attackers_space@;
    let count = board.defenders_count as usize;
    let mut i: usize = 0;
    while i < count
        invariant
            board.wf(),
            *board == *old(board),
            n == board.size(),
            cells == board.board@,
            sp == attackers_space@,
            count == board.defenders_count,
            attackers_space@.len() == board.sqs(),
            i <= count,
            forall|k: int| 0 <= k < i ==> !#[trigger] takeable(sp, n, cells, board.defenders@[k] as int),
        decreases count - i,
    {
        let d = board.defenders[i];
        proof {
            lemma_neighbors_on_board(d as int, n);
            assert(cells[d as int] == Piece::DEFENDER);
            assert(opt_to_int(board.precomputed.left_neighbor@[d as int]) == spec_left(d as int, n));
            assert(opt_to_int(board.precomputed.right_neighbor@[d as int]) == spec_right(d as int, n));
            assert(opt_to_int(board.precomputed.top_neighbor@[d as int]) == spec_top(d as int, n));
            assert(opt_to_int(board.precomputed.bottom_neighbor@[d as int]) == spec_bottom(d as int, n));
        }
        let left = board.precomputed.left_neighbor[d];
        let right = board.precomputed.right_neighbor[d];
        if let (Some(l), Some(r)) = (left, right) {
            let hl = attackers_space[l] || board.board[l] == Piece::ATTACKER;
            let hr = attackers_space[r] || board.board[r] == Piece::ATTACKER;
            if hl && hr && (attackers_space[l] || attackers_space[r]) {
                proof {
                    assert(takeable(sp, n, cells, d as int));
                }
                board.clear_piece(d);
                return d as OptionalSquare;
            }
        }
        let top = board.precomputed.top_neighbor[d];
        let bottom = board.precomputed.bottom_neighbor[d];
        if let (Some(t), Some(b)) = (top, bottom) {
            let ht = attackers_space[t] || board.board[t] == Piece::ATTACKER;
            let hb = attackers_space[b] || board.board[b] == Piece::ATTACKER;
            if ht && hb && (attackers_space[t] || attackers_space[b]) {
                proof {
                    assert(takeable(sp, n, cells, d as int));
                }
                board.clear_piece(d);
                return d as OptionalSquare;
            }
        }
        i += 1;
    }
    proof {
        assert forall|d: int| 0 <= d < cells.len() implies !#[trigger] takeable(sp, n, cells, d) by {
            if cells[d] == Piece::DEFENDER {
                let k = board.piece_index_by_square@[d] as int;
                assert(board.defenders@[k] == d);
            }
        }
    }
    HOLE
}

/// How many of the listed squares hold a defender or lie on the edge.
pub open spec fn guards_among(cells: Seq<Piece>, n: int, sqs: Seq<int>) -> int
    decreases sqs.len(),
{
    if sqs.len() == 0 {
        0
    } else {
        guards_among(cells, n, sqs.drop_last()) + if cells[sqs.last()] == Piece::DEFENDER || spec_is_edge(
            sqs.last(),
            n,
        ) {
            1int
        } else {
            0int
        }
    }
}

/// Whether the last move can have closed a fort: at the start, after a king
/// move, or after a defender's move onto the edge next to another guard, or
/// next to two guards, a guard being a defender or an edge square.
pub open spec fn spec_fort_calc_needed(b: &Board) -> bool {
    if b.last_move_to == HOLE {
        true
    } else {
        let last = b.last_move_to as int;
        let p = b.board@[last];
        if p == Piece::KING {
            true
        } else if p == Piece::ATTACKER {
            false
        } else {
            let near = guards_among(b.board@, b.size(), spec_all_neighbors(last, b.size()));
            (spec_is_edge(last, b.size()) && near > 0) || near >= 2
        }
    }
}

/// The king has an empty orthogonal neighbour.
pub open spec fn spec_king_has_moves(cells: Seq<Piece>, n: int, king: int) -> bool {
    exists|k: int|
        0 <= k < spec_vh_neighbors(king, n).len() && cells[#[trigger] spec_vh_neighbors(king, n)[k]]
            == Piece::EMPTY
}

/// The position is one in which a fort is looked for at all.
pub open spec fn fort_candidate(b: Board) -> bool {
    &&& b.king_sq != HOLE
    &&& spec_fort_calc_needed(&b)
    &&& spec_king_has_moves(b.board@, b.size(), b.king_sq as int)
    &&& spec_is_edge(b.king_sq as int, b.size())
}

/// `c2` is `c` with one defender that can be taken taken off.
pub open spec fn break_step(nb: Seq<Vec<Square>>, n: int, c: Seq<Piece>, c2: Seq<Piece>) -> bool {
    exists|d: int| 0 <= d < c.len() && #[trigger] breakable(nb, n, c, d) && c2 == c.update(d, Piece::EMPTY)
}

/// Positions each of which follows from the one before by one break step.
pub open spec fn is_break_chain(nb: Seq<Vec<Square>>, n: int, cs: Seq<Seq<Piece>>) -> bool {
    &&& cs.len() >= 1
    &&& forall|i: int| 0 <= i < cs.len() - 1 ==> #[trigger] break_step(nb, n, cs[i], cs[i + 1])
}

/// Taking defenders off one by one while that is possible ends in a position
/// where the king is still shut off from every attacker.
pub open spec fn fort_holds(b: Board) -> bool {
    exists|cs: Seq<Seq<Piece>>|
        #[trigger] is_break_chain(vh(&b), b.size(), cs) && cs[0] == b.board@ && stable(vh(&b), b.size(), cs.last())
            && !contact(vh(&b), cs.last(), b.king_sq as int)
}

/// Taking defenders off one by one leads to a position where the king meets an attacker.
pub open spec fn fort_falls(b: Board) -> bool {
    exists|cs: Seq<Seq<Piece>>|
        #[trigger] is_break_chain(vh(&b), b.size(), cs) && cs[0] == b.board@ && contact(
            vh(&b),
            cs.last(),
            b.king_sq as int,
        )
}

fn is_calculate_needed(board: &Board) -> (b: bool)
    requires
        board.wf(),
    ensures
        b == spec_fort_calc_needed(board),
{
    if board.last_move_to == HOLE {
        return true;
    }
    let last = board.last_move_to as usize;
    let piece = board.board[last];
    if piece == Piece::KING {
        return true;
    }
    if piece == Piece::ATTACKER {
        return false;
    }
    let n = board.board_size();
    let is_edge = is_edge_square(last, n);
    let all = &board.precomputed.all_neighbors[last];
    let ghost sq = usizes(all@);
    proof {
        lemma_all_neighbors_on_board(last as int, n as int);
        assert(sq == spec_all_neighbors(last as int, n as int));
    }
    let mut near: usize = 0;
    let mut i: usize = 0;
    while i < all.len()
        invariant
            board.wf(),
            n == board.size(),
            sq == usizes(all@),
            sq.len() <= 8,
            forall|k: int| 0 <= k < sq.len() ==> 0 <= #[trigger] sq[k] < n * n,
            i <= all@.len(),
            near == guards_among(board.board@, n as int, sq.subrange(0, i as int)),
            near <= i,
        decreases all@.len() - i,
    {
        let s = all[i];
        assert(sq[i as int] == s);
        let edge = is_edge_square(s, n);
        proof {
            assert(sq.subrange(0, i + 1).drop_last() =~= sq.subrange(0, i as int));
        }
        if board.board[s] == Piece::DEFENDER || edge {
            near += 1;
        }
        i += 1;
    }
    proof {
        assert(sq.subrange(0, i as int) =~= sq);
    }
    (is_edge && near > 0) || near >= 2
}

fn king_has_moves(board: &Board) -> (b: bool)
    requires
        board.wf(),
        board.king_sq != HOLE,
    ensures
        b == spec_king_has_moves(board.board@, board.size(), board.king_sq as int),
{
    let n = board.board_size();
    let king = board.king_sq as usize;
    let list = &board.precomputed.vertical_horizontal_neighbors[king];
    let ghost sq = usizes(list@);
    proof {
        lemma_vh_neighbors(king as int, n as int);
        assert(sq == spec_vh_neighbors(king as int, n as int));
        assert(king as int == board.king_sq as int);
    }
    let mut i: usize = 0;
    while i < list.len()
        invariant
            board.wf(),
            n == board.size(),
            king as int == board.king_sq as int,
            sq == usizes(list@),
            sq == spec_vh_neighbors(king as int, n as int),
            forall|k: int| 0 <= k < sq.len() ==> 0 <= #[trigger] sq[k] < n * n,
            i <= list@.len(),
            forall|k: int| 0 <= k < i ==> board.board@[#[trigger] sq[k]] != Piece::EMPTY,
        decreases list@.len() - i,
    {
        let s = list[i];
        assert(sq[i as int] == s);
        if board.board[s] == Piece::EMPTY {
            proof {
                assert(spec_vh_neighbors(king as int, n as int)[i as int] == s);
            }
            return true;
        }
        i += 1;
    }
    proof {
        assert(king as int == board.king_sq as int);
        assert forall|k: int| 0 <= k < spec_vh_neighbors(king as int, n as int).len() implies board.board@[
            #[trigger] spec_vh_neighbors(king as int, n as int)[k]] != Piece::EMPTY by {
            assert(sq[k] == spec_vh_neighbors(king as int, n as int)[k]);
        }
    }
    false
}

/// Puts a defender back on each of the listed squares.
fn revert_cleared_defenders(board: &mut Board, cleared: &Vec<Square>)
    requires
        old(board).wf(),
        forall|k: int| 0 <= k < cleared@.len() ==> #[trigger] cleared@[k] < old(board).sqs(),
        forall|k: int| 0 <= k < cleared@.len() ==> old(board).board@[#[trigger] cleared@[k] as int] == Piece::EMPTY,
        forall|j: int, k: int| 0 <= j < k < cleared@.len() ==> cleared@[j] != cleared@[k],
    ensures
        final(board).wf(),
        final(board).same_except_cells(old(board)),
        final(board).king_sq == old(board).king_sq,
        final(board).attackers_count == old(board).attackers_count,
        final(board).defenders_count == old(board).defenders_count + cleared@.len(),
        final(board).board@.len() == old(board).board@.len(),
        forall|s: int|
            0 <= s < old(board).sqs() ==> #[trigger] final(board).board@[s] == if cleared@.contains(s as usize) {
                Piece::DEFENDER
            } else {
                old(board).board@[s]
            },
{
    let ghost o = *board;
    let mut i: usize = 0;
    while i < cleared.len()
        invariant
            board.wf(),
            board.same_except_cells(&o),
            board.king_sq == o.king_sq,
            board.attackers_count == o.attackers_count,
            board.defenders_count == o.defenders_count + i,
            board.board@.len() == o.board@.len(),
            o.wf(),
            i <= cleared@.len(),
            forall|k: int| 0 <= k < cleared@.len() ==> #[trigger] cleared@[k] < o.sqs(),
            forall|k: int| 0 <= k < cleared@.len() ==> o.board@[#[trigger] cleared@[k] as int] == Piece::EMPTY,
            forall|j: int, k: int| 0 <= j < k < cleared@.len() ==> cleared@[j] != cleared@[k],
            forall|s: int|
                0 <= s < o.sqs() ==> #[trigger] board.board@[s] == if cleared@.subrange(0, i as int).contains(
                    s as usize,
                ) {
                    Piece::DEFENDER
                } else {
                    o.board@[s]
                },
        decreases cleared@.len() - i,
    {
        let sq = cleared[i];
        proof {
            if cleared@.subrange(0, i as int).contains(sq) {
                let j = choose|j: int| 0 <= j < i && cleared@.subrange(0, i as int)[j] == sq;
                assert(cleared@[j] == cleared@[i as int]);
            }
            assert(board.board@[sq as int] == Piece::EMPTY);
            lemma_count_bound(board.board@, Piece::DEFENDER, board.sqs());
        }
        let _ = board.set_piece(sq, Piece::DEFENDER);
        proof {
            assert forall|s: int| 0 <= s < o.sqs() implies #[trigger] board.board@[s] == if cleared@.subrange(
                0,
                i + 1,
            ).contains(s as usize) {
                Piece::DEFENDER
            } else {
                o.board@[s]
            } by {
                let pre = cleared@.subrange(0, i as int);
                let post = cleared@.subrange(0, i + 1);
                assert(post =~= pre.push(sq));
                if s == sq as int {
                    assert(post[i as int] == sq);
                } else {
                    if post.contains(s as usize) {
                        let j = choose|j: int| 0 <= j < post.len() && post[j] == s as usize;
                        assert(pre[j] == s as usize);
                    }
                    if pre.contains(s as usize) {
                        let j = choose|j: int| 0 <= j < pre.len() && pre[j] == s as usize;
                        assert(post[j] == s as usize);
                    }
                }
            }
        }
        i += 1;
    }
    proof {
        assert(cleared@.subrange(0, i as int) =~= cleared@);
    }
}

/// `a` is `b` with some of its defenders taken off.
pub open spec fn dominated(b: Seq<Piece>, a: Seq<Piece>) -> bool {
    &&& a.len() == b.len()
    &&& forall|s: int|
        0 <= s < b.len() ==> #[trigger] a[s] == b[s] || (b[s] == Piece::DEFENDER && a[s] == Piece::EMPTY)
}

proof fn lemma_joined_grows(nb: Seq<Vec<Square>>, n: int, b: Seq<Piece>, a: Seq<Piece>, p: Piece, s: int)
    requires
        dominated(b, a),
        p != Piece::DEFENDER,
        joined_to(nb, n, b, p, s),
    ensures
        joined_to(nb, n, a, p, s),
{
    let w = choose|w: Seq<int>| #[trigger] is_walk(attacker_mask(b, n), nb, w) && b[w[0]] == p && w.last() == s;
    assert forall|i: int| 0 <= i < w.len() implies 0 <= #[trigger] w[i] < attacker_mask(a, n).len() && attacker_mask(
        a,
        n,
    )[w[i]] by {
        assert(attacker_mask(b, n)[w[i]]);
        assert(a[w[i]] == b[w[i]] || (b[w[i]] == Piece::DEFENDER && a[w[i]] == Piece::EMPTY));
    }
    assert(is_walk(attacker_mask(a, n), nb, w));
    assert(a[w[0]] == b[w[0]] || (b[w[0]] == Piece::DEFENDER && a[w[0]] == Piece::EMPTY));
}

proof fn lemma_space_grows(nb: Seq<Vec<Square>>, n: int, b: Seq<Piece>, a: Seq<Piece>, s: int)
    requires
        dominated(b, a),
        in_space(nb, n, b, s),
    ensures
        in_space(nb, n, a, s),
{
    lemma_joined_grows(nb, n, b, a, Piece::ATTACKER, s);
    lemma_joined_grows(nb, n, b, a, Piece::EMPTY, s);
}

proof fn lemma_held_grows(nb: Seq<Vec<Square>>, n: int, b: Seq<Piece>, a: Seq<Piece>, x: int)
    requires
        dominated(b, a),
        0 <= x < b.len(),
        held(nb, n, b, x),
    ensures
        held(nb, n, a, x),
{
    if in_space(nb, n, b, x) {
        lemma_space_grows(nb, n, b, a, x);
    } else {
        assert(a[x] == b[x] || (b[x] == Piece::DEFENDER && a[x] == Piece::EMPTY));
    }
}

proof fn lemma_contact_grows(nb: Seq<Vec<Square>>, b: Seq<Piece>, a: Seq<Piece>, king: int)
    requires
        dominated(b, a),
        contact(nb, b, king),
    ensures
        contact(nb, a, king),
{
    let p = choose|p: Seq<int>|
        #[trigger] is_walk(open_mask(b), nb, p) && nb[king]@.contains(p[0] as usize) && b[p.last()] == Piece::ATTACKER;
    assert forall|i: int| 0 <= i < p.len() implies 0 <= #[trigger] p[i] < open_mask(a).len() && open_mask(a)[p[i]] by {
        assert(open_mask(b)[p[i]]);
        assert(a[p[i]] == b[p[i]] || (b[p[i]] == Piece::DEFENDER && a[p[i]] == Piece::EMPTY));
    }
    assert(is_walk(open_mask(a), nb, p));
    let l = p.last();
    assert(p[p.len() - 1] == l);
    assert(a[l] == b[l] || (b[l] == Piece::DEFENDER && a[l] == Piece::EMPTY));
}

proof fn lemma_flanked_grows(nb: Seq<Vec<Square>>, n: int, b: Seq<Piece>, a: Seq<Piece>, l: Option<int>, r: Option<int>)
    requires
        dominated(b, a),
        flanked(nb, n, b, l, r),
        l matches Some(x) ==> 0 <= x < b.len(),
        r matches Some(y) ==> 0 <= y < b.len(),
    ensures
        flanked(nb, n, a, l, r),
{
    let x = l.unwrap();
    let y = r.unwrap();
    lemma_held_grows(nb, n, b, a, x);
    lemma_held_grows(nb, n, b, a, y);
    if in_space(nb, n, b, x) {
        lemma_space_grows(nb, n, b, a, x);
    } else {
        lemma_space_grows(nb, n, b, a, y);
    }
}

proof fn lemma_breakable_grows(nb: Seq<Vec<Square>>, n: int, b: Seq<Piece>, a: Seq<Piece>, d: int)
    requires
        dominated(b, a),
        breakable(nb, n, b, d),
        a[d] == Piece::DEFENDER,
        b.len() == n * n,
        0 <= d < n * n,
        0 < n,
    ensures
        breakable(nb, n, a, d),
{
    lemma_neighbors_on_board(d, n);
    if flanked(nb, n, b, spec_left(d, n), spec_right(d, n)) {
        lemma_flanked_grows(nb, n, b, a, spec_left(d, n), spec_right(d, n));
    } else {
        lemma_flanked_grows(nb, n, b, a, spec_top(d, n), spec_bottom(d, n));
    }
}

/// Every position of a break chain is dominated by the chain's last position.
proof fn lemma_chain_dominates(nb: Seq<Vec<Square>>, n: int, cs: Seq<Seq<Piece>>, i: int)
    requires
        is_break_chain(nb, n, cs),
        0 <= i < cs.len(),
    ensures
        dominated(cs[i], cs.last()),
    decreases cs.len() - i,
{
    if i < cs.len() - 1 {
        lemma_chain_dominates(nb, n, cs, i + 1);
        assert(break_step(nb, n, cs[i], cs[i + 1]));
        let d = choose|d: int|
            0 <= d < cs[i].len() && #[trigger] breakable(nb, n, cs[i], d) && cs[i + 1] == cs[i].update(d, Piece::EMPTY);
        let b = cs[i];
        let m = cs[i + 1];
        let a = cs.last();
        assert forall|s: int| 0 <= s < b.len() implies #[trigger] a[s] == b[s] || (b[s] == Piece::DEFENDER && a[s]
            == Piece::EMPTY) by {
            assert(a[s] == m[s] || (m[s] == Piece::DEFENDER && a[s] == Piece::EMPTY));
        }
    } else {
        assert(cs[i] =~= cs.last());
    }
}

/// Along a chain `cs` from the same start, every position stays dominated
/// by a stable end `a` that the start reaches.
proof fn lemma_chain_below_stable(nb: Seq<Vec<Square>>, n: int, cs: Seq<Seq<Piece>>, a: Seq<Piece>, j: int)
    requires
        is_break_chain(nb, n, cs),
        dominated(cs[0], a),
        stable(nb, n, a),
        0 <= j < cs.len(),
        a.len() == n * n,
        0 < n,
    ensures
        dominated(cs[j], a),
    decreases j,
{
    if j > 0 {
        lemma_chain_below_stable(nb, n, cs, a, j - 1);
        let i = j - 1;
        assert(break_step(nb, n, cs[i], cs[i + 1]));
        assert(i + 1 == j);
        let b = cs[i];
        let d = choose|d: int| 0 <= d < b.len() && #[trigger] breakable(nb, n, b, d) && cs[j] == b.update(d, Piece::EMPTY);
        if a[d] == Piece::DEFENDER {
            lemma_breakable_grows(nb, n, b, a, d);
            assert(!breakable(nb, n, a, d));
        }
        assert(a[d] == b[d] || (b[d] == Piece::DEFENDER && a[d] == Piece::EMPTY));
        let c = cs[j];
        assert forall|s: int| 0 <= s < c.len() implies #[trigger] a[s] == c[s] || (c[s] == Piece::DEFENDER && a[s]
            == Piece::EMPTY) by {
            assert(a[s] == b[s] || (b[s] == Piece::DEFENDER && a[s] == Piece::EMPTY));
        }
    }
}

/// Whichever order the defenders are taken in, the verdict is the same: a
/// position whose fort holds after one order of breaks cannot fall after another.
pub proof fn lemma_fort_verdict_unique(b: Board)
    requires
        b.wf(),
    ensures
        !(fort_holds(b) && fort_falls(b)),
{
    if fort_holds(b) && fort_falls(b) {
        let nb = vh(&b);
        let n = b.size();
        let ca = choose|cs: Seq<Seq<Piece>>|
            #[trigger] is_break_chain(nb, n, cs) && cs[0] == b.board@ && stable(nb, n, cs.last()) && !contact(
                nb,
                cs.last(),
                b.king_sq as int,
            );
        let cb = choose|cs: Seq<Seq<Piece>>|
            #[trigger] is_break_chain(nb, n, cs) && cs[0] == b.board@ && contact(nb, cs.last(), b.king_sq as int);
        let a = ca.last();
        lemma_chain_dominates(nb, n, ca, 0);
        lemma_chain_below_stable(nb, n, cb, a, cb.len() - 1);
        assert(cb[cb.len() - 1] == cb.last());
        lemma_contact_grows(nb, cb.last(), a, b.king_sq as int);
    }
}

/// `cells` is `c0` with the listed squares emptied.
pub open spec fn blanked(cells: Seq<Piece>, c0: Seq<Piece>, cl: Seq<Square>, sqs: int) -> bool {
    forall|s: int|
        0 <= s < sqs ==> #[trigger] cells[s] == if cl.contains(s as usize) {
            Piece::EMPTY
        } else {
            c0[s]
        }
}

proof fn lemma_chain_push(nb: Seq<Vec<Square>>, n: int, cs: Seq<Seq<Piece>>, c2: Seq<Piece>)
    requires
        is_break_chain(nb, n, cs),
        break_step(nb, n, cs.last(), c2),
    ensures
        is_break_chain(nb, n, cs.push(c2)),
        cs.push(c2)[0] == cs[0],
        cs.push(c2).last() == c2,
{
    let cs2 = cs.push(c2);
    assert forall|i: int| 0 <= i < cs2.len() - 1 implies #[trigger] break_step(nb, n, cs2[i], cs2[i + 1]) by {
        if i < cs.len() - 1 {
            assert(cs2[i] == cs[i] && cs2[i + 1] == cs[i + 1]);
        }
    }
}

proof fn lemma_blanked_push(cells: Seq<Piece>, c0: Seq<Piece>, cl: Seq<Square>, sqs: int, d: Square)
    requires
        blanked(cells, c0, cl, sqs),
        sqs <= usize::MAX,
        cells.len() == sqs,
        d < sqs,
        cells[d as int] == Piece::DEFENDER,
        forall|j: int, k: int| 0 <= j < k < cl.len() ==> cl[j] != cl[k],
    ensures
        blanked(cells.update(d as int, Piece::EMPTY), c0, cl.push(d), sqs),
        !cl.contains(d),
        forall|j: int, k: int| 0 <= j < k < cl.push(d).len() ==> cl.push(d)[j] != cl.push(d)[k],
        c0[d as int] == Piece::DEFENDER,
{
    let c2 = cells.update(d as int, Piece::EMPTY);
    let cl2 = cl.push(d);
    assert(cells[d as int] == (if cl.contains(d) { Piece::EMPTY } else { c0[d as int] }));
    assert forall|s: int| 0 <= s < sqs implies #[trigger] c2[s] == if cl2.contains(s as usize) {
        Piece::EMPTY
    } else {
        c0[s]
    } by {
        assert(cells[s] == (if cl.contains(s as usize) { Piece::EMPTY } else { c0[s] }));
        if s != d as int {
            if cl2.contains(s as usize) {
                let j = choose|j: int| 0 <= j < cl2.len() && cl2[j] == s as usize;
                assert(cl[j] == s as usize);
            }
            if cl.contains(s as usize) {
                let j = choose|j: int| 0 <= j < cl.len() && cl[j] == s as usize;
                assert(cl2[j] == s as usize);
            }
        } else {
            assert(cl2[cl.len() as int] == d);
        }
    }
    assert forall|j: int, k: int| 0 <= j < k < cl2.len() implies cl2[j] != cl2[k] by {
        if k == cl.len() {
            assert(cl2[j] == cl[j]);
        }
    }
}

/// Putting the emptied defenders back gives `c0` again.
proof fn lemma_blanked_restore(cells: Seq<Piece>, back: Seq<Piece>, c0: Seq<Piece>, cl: Seq<Square>, sqs: int)
    requires
        blanked(cells, c0, cl, sqs),
        sqs <= usize::MAX,
        c0.len() == sqs,
        back.len() == sqs,
        forall|k: int| 0 <= k < cl.len() ==> c0[#[trigger] cl[k] as int] == Piece::DEFENDER,
        forall|s: int|
            0 <= s < sqs ==> #[trigger] back[s] == if cl.contains(s as usize) {
                Piece::DEFENDER
            } else {
                cells[s]
            },
    ensures
        back == c0,
{
    assert forall|s: int| 0 <= s < sqs implies back[s] == c0[s] by {
        assert(back[s] == (if cl.contains(s as usize) { Piece::DEFENDER } else { cells[s] }));
        assert(cells[s] == (if cl.contains(s as usize) { Piece::EMPTY } else { c0[s] }));
        if cl.contains(s as usize) {
            let j = choose|j: int| 0 <= j < cl.len() && cl[j] == s as usize;
            assert(c0[cl[j] as int] == Piece::DEFENDER);
        }
    }
    assert(back =~= c0);
}

/// Whether the king sits in an edge fort that the attackers cannot break:
/// its defenders are taken off one by one wherever the attackers' space
/// flanks one, and the fort stands when no attacker can then reach the king.
/// The board is given back as it came, up to the order of its defender list.
pub fn check_fort(board: &mut Board) -> (r: bool)
    requires
        old(board).wf(),
    ensures
        final(board).wf(),
        final(board).board@ == old(board).board@,
        final(board).same_except_cells(old(board)),
        final(board).king_sq == old(board).king_sq,
        final(board).attackers_count == old(board).attackers_count,
        final(board).defenders_count == old(board).defenders_count,
        r == (fort_candidate(*old(board)) && fort_holds(*old(board))),
{
    if board.king_sq == HOLE {
        return false;
    }
    if !is_calculate_needed(board) {
        return false;
    }
    let n = board.board_size();
    if !king_has_moves(board) || !is_edge_square(board.king_sq as usize, n) {
        return false;
    }
    let ghost o = *board;
    let ghost nb = vh(board);
    let ghost c0 = board.board@;
    let ghost king = board.king_sq as int;
    let ghost mut cs: Seq<Seq<Piece>> = seq![c0];
    if king_contacts_attackers(board) {
        proof {
            assert(is_break_chain(nb, n as int, cs));
            assert(fort_falls(o));
            lemma_fort_verdict_unique(o);
        }
        return false;
    }
    let mut cleared: Vec<Square> = Vec::new();
    let mut stuck = false;
    while !stuck
        invariant
            o == *old(board),
            o.wf(),
            fort_candidate(o),
            nb == vh(&o),
            c0 == o.board@,
            king == o.king_sq as int,
            n == o.size(),
            board.wf(),
            board.same_except_cells(&o),
            board.king_sq == o.king_sq,
            board.attackers_count == o.attackers_count,
            board.defenders_count + cleared@.len() == o.defenders_count,
            board.board@.len() == c0.len(),
            is_break_chain(nb, n as int, cs),
            cs[0] == c0,
            cs.last() == board.board@,
            !contact(nb, board.board@, king),
            stuck ==> stable(nb, n as int, board.board@),
            forall|k: int| 0 <= k < cleared@.len() ==> #[trigger] cleared@[k] < o.sqs(),
            forall|k: int| 0 <= k < cleared@.len() ==> c0[#[trigger] cleared@[k] as int] == Piece::DEFENDER,
            forall|j: int, k: int| 0 <= j < k < cleared@.len() ==> cleared@[j] != cleared@[k],
            blanked(board.board@, c0, cleared@, o.sqs()),
        decreases board.defenders_count, if stuck { 0int } else { 1int },
    {
        let space = get_attackers_space(board);
        let ghost before = *board;
        let broken = try_break_fort(&space, board);
        proof {
            assert forall|d: int| 0 <= d < o.sqs() implies takeable(space@, n as int, before.board@, d) == breakable(
                nb,
                n as int,
                before.board@,
                d,
            ) by {
                lemma_takeable_is_breakable(space@, nb, n as int, before.board@, d);
            }
        }
        if broken == HOLE {
            proof {
                assert forall|d: int| 0 <= d < before.board@.len() implies !#[trigger] breakable(
                    nb,
                    n as int,
                    before.board@,
                    d,
                ) by {
                    assert(!takeable(space@, n as int, before.board@, d));
                }
            }
            stuck = true;
        } else {
            let d = broken as usize;
            proof {
                let c = before.board@;
                assert(breakable(nb, n as int, c, d as int));
                assert(break_step(nb, n as int, c, board.board@));
                lemma_chain_push(nb, n as int, cs, board.board@);
                cs = cs.push(board.board@);
                lemma_blanked_push(c, c0, cleared@, o.sqs(), d);
            }
            cleared.push(d);
            if king_contacts_attackers(board) {
                let ghost mid = board.board@;
                revert_cleared_defenders(board, &cleared);
                proof {
                    lemma_blanked_restore(mid, board.board@, c0, cleared@, o.sqs());
                    assert(fort_falls(o));
                    lemma_fort_verdict_unique(o);
                }
                return false;
            }
        }
    }
    let ghost mid = board.board@;
    revert_cleared_defenders(board, &cleared);
    proof {
        lemma_blanked_restore(mid, board.board@, c0, cleared@, o.sqs());
        assert(fort_holds(o));
    }
    true
}

} // verus!
