use vstd::prelude::*;
use crate::board::Board;
use crate::board::constants::HOLE;
use crate::board::masks::{lemma_fits16_bound, line_mask_ok, slide_reaches};
use crate::board::state::lemma_square_eq_iff;
use crate::board::types::{Piece, Side, Square};
use crate::board::utils::{col_of, get_square, is_corner, lemma_small_board, lemma_square_compose, lemma_square_parts, row_of, spec_throne, square_at};
use crate::moves::mv::Move;
use crate::utils::bits::{bit16, lemma_bit16_and_single, lemma_bit16_clear_single};

verus! {

/// Room for the moves of one position; the generator grows past it if needed.
pub const MAX_MOVES: usize = 1024;

/// Only the king may come to rest on the throne or on a corner.
pub open spec fn may_stop(p: Piece, sq: int, n: int) -> bool {
    (p != Piece::ATTACKER && p != Piece::DEFENDER) || (sq != spec_throne(n) && !is_corner(sq, n))
}

/// Position `k` on the line through `from`: along its row when `horizontal`,
/// along its column otherwise.
pub open spec fn line_square(from: int, horizontal: bool, k: int, n: int) -> int {
    if horizontal {
        square_at(row_of(from, n), k, n)
    } else {
        square_at(k, col_of(from, n), n)
    }
}

/// Where `from` itself lies on that line.
pub open spec fn line_pos(from: int, horizontal: bool, n: int) -> int {
    if horizontal {
        col_of(from, n)
    } else {
        row_of(from, n)
    }
}

/// The piece on `from` can slide along the line to position `k`, over empty
/// squares only, and stop there.
pub open spec fn line_dest(cells: Seq<Piece>, n: int, from: int, horizontal: bool, k: int) -> bool {
    let pos = line_pos(from, horizontal, n);
    &&& 0 <= k < n
    &&& k != pos
    &&& forall|j: int|
        (pos < j <= k || k <= j < pos) ==> #[trigger] cells[line_square(from, horizontal, j, n)] == Piece::EMPTY
    &&& may_stop(cells[from], line_square(from, horizontal, k, n), n)
}

/// The moves along one line to positions below `k`, nearest the line's start first.
pub open spec fn line_moves_upto(cells: Seq<Piece>, n: int, from: int, horizontal: bool, k: int) -> Seq<(int, int)>
    decreases k,
{
    if k <= 0 {
        Seq::empty()
    } else {
        let prev = line_moves_upto(cells, n, from, horizontal, k - 1);
        if line_dest(cells, n, from, horizontal, k - 1) {
            prev.push((from, line_square(from, horizontal, k - 1, n)))
        } else {
            prev
        }
    }
}

/// The moves of the piece on `from`: along its row, then along its column.
pub open spec fn piece_moves(cells: Seq<Piece>, n: int, from: int) -> Seq<(int, int)> {
    line_moves_upto(cells, n, from, true, n) + line_moves_upto(cells, n, from, false, n)
}

/// The moves of the pieces on the listed squares, in list order.
pub open spec fn list_moves(cells: Seq<Piece>, n: int, list: Seq<usize>) -> Seq<(int, int)>
    decreases list.len(),
{
    if list.len() == 0 {
        Seq::empty()
    } else {
        list_moves(cells, n, list.drop_last()) + piece_moves(cells, n, list.last() as int)
    }
}

/// The moves `generate_moves` lists for the side to move, as (from, to)
/// pairs: the attackers in list order, or the defenders in list order and
/// then the king.
pub open spec fn spec_generate_moves(b: &Board) -> Seq<(int, int)> {
    let n = b.size();
    let c = b.board@;
    if b.side_to_move == Side::ATTACKERS {
        list_moves(c, n, b.attackers@.subrange(0, b.attackers_count as int))
    } else {
        list_moves(c, n, b.defenders@.subrange(0, b.defenders_count as int)) + if b.king_sq != HOLE {
            piece_moves(c, n, b.king_sq as int)
        } else {
            Seq::empty()
        }
    }
}

/// Slot `b` holds the first of the highest scores among the first `count`.
pub open spec fn is_first_best(scores: Seq<i32>, count: int, b: int) -> bool {
    &&& 0 <= b < count
    &&& forall|i: int| 0 <= i < count ==> scores[i] <= scores[b]
    &&& forall|i: int| 0 <= i < b ==> scores[i] < scores[b]
}

/// Moves as (from, to) pairs.
pub open spec fn move_pairs(s: Seq<Move>) -> Seq<(int, int)> {
    s.map_values(|m: Move| (m.spec_from(), m.spec_to()))
}

pub proof fn lemma_line_moves_len(cells: Seq<Piece>, n: int, from: int, horizontal: bool, k: int)
    ensures
        line_moves_upto(cells, n, from, horizontal, k).len() <= if k < 0 { 0 } else { k },
    decreases k,
{
    if k > 0 {
        lemma_line_moves_len(cells, n, from, horizontal, k - 1);
    }
}

/// The generated moves of one position, with a score slot for each.
pub struct MoveGen {
    pub moves: Vec<Move>,
    pub move_scores: Vec<i32>,
    pub count: usize,
}

impl MoveGen {
    /// The first `count` slots hold the current moves; each slot has a score.
    pub open spec fn wf(&self) -> bool {
        &&& self.moves@.len() == self.move_scores@.len()
        &&& self.count <= self.moves@.len()
    }

    /// The current moves.
    pub open spec fn listed(&self) -> Seq<Move> {
        self.moves@.subrange(0, self.count as int)
    }

    pub fn new() -> (g: Self)
        ensures
            g.wf(),
            g.count == 0,
            g.moves@.len() == MAX_MOVES,
            forall|i: int| 0 <= i < MAX_MOVES ==> (#[trigger] g.moves@[i]).spec_raw() == 0,
            forall|i: int| 0 <= i < MAX_MOVES ==> #[trigger] g.move_scores@[i] == 0,
    {
        let mut moves: Vec<Move> = Vec::new();
        let mut move_scores: Vec<i32> = Vec::new();
        let mut i: usize = 0;
        while i < MAX_MOVES
            invariant
                i <= MAX_MOVES,
                moves@.len() == i,
                move_scores@.len() == i,
                forall|k: int| 0 <= k < i ==> (#[trigger] moves@[k]).spec_raw() == 0,
                forall|k: int| 0 <= k < i ==> #[trigger] move_scores@[k] == 0,
            decreases MAX_MOVES - i,
        {
            moves.push(Move::create_null());
            move_scores.push(0);
            i += 1;
        }
        MoveGen { moves, move_scores, count: 0 }
    }

    fn add_move(&mut self, mv: Move)
        requires
            old(self).wf(),
            old(self).count < usize::MAX,
        ensures
            final(self).wf(),
            final(self).count == old(self).count + 1,
            final(self).listed() == old(self).listed().push(mv),
    {
        if self.count < self.moves.len() {
            self.moves.set(self.count, mv);
        } else {
            self.moves.push(mv);
            self.move_scores.push(0);
        }
        self.count += 1;
        proof {
            assert(self.listed() =~= old(self).listed().push(mv));
        }
    }

    /// The destinations along one line of the piece on `from`, as a mask of
    /// line positions.
    fn line_beam(board: &Board, from: Square, horizontal: bool) -> (beam: u16)
        requires
            board.wf(),
            from < board.sqs(),
        ensures
            forall|k: int|
                0 <= k < board.size() ==> (#[trigger] bit16(beam, k) <==> line_dest(
                    board.board@,
                    board.size(),
                    from as int,
                    horizontal,
                    k,
                )),
    {
        let n = board.board_size();
        let ghost cells = board.board@;
        proof {
            lemma_small_board(n as int);
            lemma_square_parts(from as int, n as int);
        }
        let row = board.precomputed.row[from];
        let col = board.precomputed.col[from];
        let pos = if horizontal { col } else { row };
        let line = if horizontal { row } else { col };
        let occ = if horizontal { board.row_occ[row] } else { board.col_occ[col] };
        proof {
            lemma_fits16_bound(occ, n as int);
        }
        let table_entry = board.precomputed.line_moves[pos][occ as usize];
        let mut beam: u16 = table_entry & !(1u16 << (pos as u16));
        let piece = board.board[from];
        let center = (n - 1) / 2;
        let ghost beam0 = beam;
        proof {
            assert(line_mask_ok(table_entry, pos as int, occ, n as int));
            assert(row == row_of(from as int, n as int) && col == col_of(from as int, n as int));
            assert forall|j: int| 0 <= j < n implies (#[trigger] bit16(occ, j) <==> cells[line_square(
                from as int,
                horizontal,
                j,
                n as int,
            )] != Piece::EMPTY) by {
                if horizontal {
                    assert(bit16(board.row_occ@[row as int], j) <==> cells[square_at(row as int, j, n as int)] != Piece::EMPTY);
                } else {
                    assert(bit16(board.col_occ@[col as int], j) <==> cells[square_at(j, col as int, n as int)] != Piece::EMPTY);
                }
            }
            assert forall|k: int| 0 <= k < n implies (#[trigger] bit16(beam0, k) <==> {
                let p = line_pos(from as int, horizontal, n as int);
                &&& k != p
                &&& forall|j: int|
                    (p < j <= k || k <= j < p) ==> #[trigger] cells[line_square(from as int, horizontal, j, n as int)]
                        == Piece::EMPTY
            }) by {
                lemma_bit16_clear_single(table_entry, pos as u16, k as u16);
                assert(bit16(table_entry, k) <==> slide_reaches(occ, pos as int, k, n as int));
                if bit16(beam0, k) {
                    assert forall|j: int| (pos < j <= k || k <= j < pos) implies #[trigger] cells[line_square(
                        from as int,
                        horizontal,
                        j,
                        n as int,
                    )] == Piece::EMPTY by {
                        assert(!bit16(occ, j));
                    }
                }
                if k != pos && forall|j: int|
                    (pos < j <= k || k <= j < pos) ==> #[trigger] cells[line_square(from as int, horizontal, j, n as int)]
                        == Piece::EMPTY {
                    assert forall|j: int| (pos < j <= k || k <= j < pos) implies !#[trigger] bit16(occ, j) by {
                        assert(cells[line_square(from as int, horizontal, j, n as int)] == Piece::EMPTY);
                    }
                }
            }
        }
        if piece == Piece::ATTACKER || piece == Piece::DEFENDER {
            if line == center {
                let ghost b1 = beam;
                beam = beam & !(1u16 << (center as u16));
                proof {
                    assert forall|k: int| 0 <= k < n implies (#[trigger] bit16(beam, k) <==> (bit16(b1, k) && k != center)) by {
                        lemma_bit16_clear_single(b1, center as u16, k as u16);
                    }
                }
            } else if line == 0 || line == n - 1 {
                let ghost b1 = beam;
                beam = beam & !1u16;
                let ghost b2 = beam;
                beam = beam & !(1u16 << ((n - 1) as u16));
                proof {
                    assert forall|k: int| 0 <= k < n implies (#[trigger] bit16(beam, k) <==> (bit16(b1, k) && k != 0 && k != n - 1)) by {
                        assert(1u16 << 0u16 == 1u16) by (bit_vector);
                        lemma_bit16_clear_single(b1, 0u16, k as u16);
                        lemma_bit16_clear_single(b2, (n - 1) as u16, k as u16);
                    }
                }
            }
        }
        proof {
            assert forall|k: int| 0 <= k < n implies (#[trigger] bit16(beam, k) <==> line_dest(cells, n as int, from as int, horizontal, k)) by {
                let sq = line_square(from as int, horizontal, k, n as int);
                let r = row_of(from as int, n as int);
                let c = col_of(from as int, n as int);
                lemma_square_compose(r, k, n as int);
                lemma_square_compose(k, c, n as int);
                lemma_square_compose(center as int, center as int, n as int);
                lemma_square_compose(0, 0, n as int);
                lemma_square_compose(0, n - 1, n as int);
                lemma_square_compose(n - 1, 0, n as int);
                lemma_square_compose(n - 1, n - 1, n as int);
                lemma_square_eq_iff(r, k, spec_throne(n as int), n as int);
                lemma_square_eq_iff(k, c, spec_throne(n as int), n as int);
            }
        }
        beam
    }

    /// Appends the moves along one line of the piece on `from`.
    fn generate_line_moves(&mut self, board: &Board, from: Square, horizontal: bool)
        requires
            old(self).wf(),
            board.wf(),
            from < board.sqs(),
            old(self).count + 16 <= usize::MAX,
        ensures
            final(self).wf(),
            move_pairs(final(self).listed()) == move_pairs(old(self).listed()) + line_moves_upto(
                board.board@,
                board.size(),
                from as int,
                horizontal,
                board.size(),
            ),
            final(self).count <= old(self).count + board.size(),
    {
        let n = board.board_size();
        let beam = Self::line_beam(board, from, horizontal);
        let row = board.precomputed.row[from];
        let col = board.precomputed.col[from];
        let ghost base = move_pairs(self.listed());
        let ghost cells = board.board@;
        proof {
            lemma_small_board(n as int);
            lemma_square_parts(from as int, n as int);
        }
        let mut k: usize = 0;
        while k < n
            invariant
                self.wf(),
                board.wf(),
                n == board.size(),
                cells == board.board@,
                3 <= n <= 11,
                from < n * n,
                row == row_of(from as int, n as int),
                col == col_of(from as int, n as int),
                k <= n,
                forall|j: int| 0 <= j < n ==> (#[trigger] bit16(beam, j) <==> line_dest(cells, n as int, from as int, horizontal, j)),
                move_pairs(self.listed()) == base + line_moves_upto(cells, n as int, from as int, horizontal, k as int),
                self.count <= old(self).count + k,
                old(self).count + 16 <= usize::MAX,
            decreases n - k,
        {
            proof {
                lemma_bit16_and_single(beam, k as u16);
            }
            if beam & (1u16 << (k as u16)) != 0 {
                proof {
                    lemma_square_compose(row as int, k as int, n as int);
                    lemma_square_compose(k as int, col as int, n as int);
                }
                let to = if horizontal { get_square(row, k, n) } else { get_square(k, col, n) };
                let mv = Move::new(from, to);
                let ghost before = self.listed();
                self.add_move(mv);
                proof {
                    assert(move_pairs(before.push(mv)) =~= move_pairs(before).push((mv.spec_from(), mv.spec_to())));
                }
            }
            k += 1;
        }
        proof {
            lemma_line_moves_len(cells, n as int, from as int, horizontal, n as int);
        }
    }

    fn generate_moves_for_piece(&mut self, board: &Board, from: Square)
        requires
            old(self).wf(),
            board.wf(),
            from < board.sqs(),
            old(self).count + 32 <= usize::MAX,
        ensures
            final(self).wf(),
            move_pairs(final(self).listed()) == move_pairs(old(self).listed()) + piece_moves(
                board.board@,
                board.size(),
                from as int,
            ),
            final(self).count <= old(self).count + 2 * board.size(),
    {
        let ghost base = move_pairs(self.listed());
        self.generate_line_moves(board, from, true);
        self.generate_line_moves(board, from, false);
        proof {
            let c = board.board@;
            let n = board.size();
            assert(base + line_moves_upto(c, n, from as int, true, n) + line_moves_upto(c, n, from as int, false, n)
                =~= base + piece_moves(c, n, from as int));
        }
    }

    /// Appends the moves of the pieces listed in `list[..count]`.
    fn generate_list_moves(&mut self, board: &Board, list: &Vec<Square>, count: usize)
        requires
            old(self).wf(),
            board.wf(),
            count <= list@.len(),
            count <= board.sqs(),
            forall|i: int| 0 <= i < count ==> #[trigger] list@[i] < board.sqs(),
            old(self).count <= 4096,
        ensures
            final(self).wf(),
            move_pairs(final(self).listed()) == move_pairs(old(self).listed()) + list_moves(
                board.board@,
                board.size(),
                list@.subrange(0, count as int),
            ),
            final(self).count <= old(self).count + 2 * board.size() * count,
    {
        let ghost base = move_pairs(self.listed());
        let ghost n = board.size();
        proof {
            lemma_small_board(n);
        }
        let mut i: usize = 0;
        while i < count
            invariant
                self.wf(),
                board.wf(),
                n == board.size(),
                3 <= n <= 11,
                count <= list@.len(),
                count <= n * n,
                forall|i: int| 0 <= i < count ==> #[trigger] list@[i] < board.sqs(),
                i <= count,
                move_pairs(self.listed()) == base + list_moves(board.board@, n, list@.subrange(0, i as int)),
                self.count <= old(self).count + 2 * n * i,
                old(self).count <= 4096,
            decreases count - i,
        {
            proof {
                assert(2 * n * i <= 2 * 11 * 121) by (nonlinear_arith)
                    requires
                        n <= 11,
                        i <= count,
                        count <= n * n,
                        0 <= n,
                ;
            }
            let sq = list[i];
            let ghost before = move_pairs(self.listed());
            self.generate_moves_for_piece(board, sq);
            proof {
                let pre = list@.subrange(0, i as int);
                let next = list@.subrange(0, i + 1);
                assert(next.drop_last() =~= pre);
                assert(next.last() == sq);
                assert(base + list_moves(board.board@, n, pre) + piece_moves(board.board@, n, sq as int)
                    =~= base + list_moves(board.board@, n, next));
                assert(2 * n * i + 2 * n == 2 * n * (i + 1)) by (nonlinear_arith);
            }
            i += 1;
        }
    }

    /// Lists the moves of the side to move, replacing the previous list.
    pub fn generate_moves(&mut self, board: &Board)
        requires
            old(self).wf(),
            board.wf(),
        ensures
            final(self).wf(),
            move_pairs(final(self).listed()) == spec_generate_moves(board),
    {
        self.count = 0;
        proof {
            assert(move_pairs(self.listed()) =~= Seq::<(int, int)>::empty());
            lemma_small_board(board.size());
        }
        if board.side_to_move == Side::ATTACKERS {
            self.generate_list_moves(board, &board.attackers, board.attackers_count as usize);
            proof {
                assert(Seq::<(int, int)>::empty() + list_moves(board.board@, board.size(), board.attackers@.subrange(0, board.attackers_count as int))
                    =~= spec_generate_moves(board));
            }
        } else {
            self.generate_list_moves(board, &board.defenders, board.defenders_count as usize);
            let ghost mid = move_pairs(self.listed());
            proof {
                assert(mid =~= list_moves(board.board@, board.size(), board.defenders@.subrange(0, board.defenders_count as int)));
                assert(self.count <= 2 * 11 * 121) by (nonlinear_arith)
                    requires
                        self.count <= 2 * board.size() * board.defenders_count,
                        board.size() <= 11,
                        board.defenders_count <= board.size() * board.size(),
                        0 <= board.size(),
                ;
            }
            if board.king_sq != HOLE {
                self.generate_moves_for_piece(board, board.king_sq as Square);
            } else {
                proof {
                    assert(mid + Seq::<(int, int)>::empty() =~= mid);
                }
            }
        }
    }

    pub fn count(&self) -> (c: usize)
        ensures
            c == self.count,
    {
        self.count
    }

    /// The current moves.
    pub fn moves(&self) -> (s: &[Move])
        requires
            self.wf(),
        ensures
            s@ == self.listed(),
    {
        self.moves.as_slice().split_at(self.count).0
    }

    /// Takes out the best-scored current move (the first of equal best), moving
    /// the last current move into its slot.
    pub fn pick_move(&mut self) -> (r: Option<Move>)
        requires
            old(self).wf(),
        ensures
            final(self).wf(),
            old(self).count == 0 ==> r is None && *final(self) == *old(self),
            old(self).count > 0 ==> exists|b: int|
                {
                    &&& is_first_best(old(self).move_scores@, old(self).count as int, b)
                    &&& r == Some(old(self).moves@[b])
                    &&& final(self).moves@ == old(self).moves@.update(b, old(self).moves@[old(self).count - 1])
                    &&& final(self).move_scores@ == old(self).move_scores@.update(
                        b,
                        old(self).move_scores@[old(self).count - 1],
                    )
                    &&& final(self).count == old(self).count - 1
                },
    {
        if self.count == 0 {
            return None;
        }
        let mut best_index: usize = 0;
        let mut best_score = self.move_scores[0];
        let mut i: usize = 1;
        while i < self.count
            invariant
                self.wf(),
                *self == *old(self),
                1 <= i <= self.count,
                is_first_best(self.move_scores@, i as int, best_index as int),
                best_score == self.move_scores@[best_index as int],
            decreases self.count - i,
        {
            if self.move_scores[i] > best_score {
                best_score = self.move_scores[i];
                best_index = i;
            }
            i += 1;
        }
        let best_move = self.moves[best_index];
        let last = self.count - 1;
        let last_move = self.moves[last];
        let last_score = self.move_scores[last];
        self.moves.set(best_index, last_move);
        self.move_scores.set(best_index, last_score);
        self.count = last;
        Some(best_move)
    }
}

/// The legal moves of the position, in the order the generator lists them.
pub fn get_left_moves(board: &Board, move_gen: &mut MoveGen) -> (r: Vec<Move>)
    requires
        old(move_gen).wf(),
        board.wf(),
    ensures
        final(move_gen).wf(),
        r@ == final(move_gen).listed(),
        move_pairs(r@) == spec_generate_moves(board),
{
    move_gen.generate_moves(board);
    let mut out: Vec<Move> = Vec::new();
    let mut i: usize = 0;
    while i < move_gen.count
        invariant
            move_gen.wf(),
            move_pairs(move_gen.listed()) == spec_generate_moves(board),
            i <= move_gen.count,
            out@ == move_gen.moves@.subrange(0, i as int),
        decreases move_gen.count - i,
    {
        out.push(move_gen.moves[i]);
        i += 1;
        proof {
            assert(out@ =~= move_gen.moves@.subrange(0, i as int));
        }
    }
    out
}

} // verus!
