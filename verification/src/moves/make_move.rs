use vstd::prelude::*;
use crate::board::Board;
use crate::board::constants::HOLE;
use crate::board::precompute::{sandwich_view, spec_sandwiches, SandwichCapture};
use crate::board::rules::{spec_board_size, spec_has_shield_walls, RulesEnum};
use crate::board::types::{spec_opposite, OptionalSquare, Piece, Side, Square};
use crate::board::utils::{lemma_vh_neighbors, spec_vh_neighbors, usizes};
use crate::moves::capture::{is_capture_possible, king_is_surrounded, spec_king_surrounded, spec_sandwiched};
use crate::moves::mv::Move;
use crate::moves::shield::{make_shield_wall_captures, spec_shield_walls};
use crate::moves::undo::{CapturedPiece, UndoMove};

verus! {

broadcast use vstd::std_specs::hash::group_hash_axioms;

/// The board after the piece on `from` slides to `to`.
pub open spec fn moved_cells(c: Seq<Piece>, from: int, to: int) -> Seq<Piece> {
    c.update(from, Piece::EMPTY).update(to, c[from])
}

/// Sandwich captures around the arrival square, checked in the given order.
pub open spec fn sandwich_fold(
    cells: Seq<Piece>,
    rules: RulesEnum,
    n: int,
    to: int,
    sw: Seq<(int, int)>,
) -> (Seq<Piece>, Seq<CapturedPiece>)
    decreases sw.len(),
{
    if sw.len() == 0 {
        (cells, Seq::empty())
    } else {
        let (c, caps) = sandwich_fold(cells, rules, n, to, sw.drop_last());
        let (between, captor) = sw.last();
        if spec_sandwiched(c, rules, n, between, to, captor) {
            (
                c.update(between, Piece::EMPTY),
                caps.push(CapturedPiece { square: between as usize, piece: c[between] }),
            )
        } else {
            (c, caps)
        }
    }
}

/// The king is taken when an attacker's move closes its surround.
pub open spec fn king_phase(
    cells: Seq<Piece>,
    rules: RulesEnum,
    n: int,
    side: Side,
    king: int,
    to: int,
) -> (Seq<Piece>, Seq<CapturedPiece>) {
    if king != -1 && side == Side::ATTACKERS && spec_vh_neighbors(king, n).contains(to)
        && spec_king_surrounded(cells, rules, n, king) {
        (
            cells.update(king, Piece::EMPTY),
            seq![CapturedPiece { square: king as usize, piece: Piece::KING }],
        )
    } else {
        (cells, Seq::empty())
    }
}

/// Where the king stands once the moving piece has arrived.
pub open spec fn king_after(b: &Board, from: int, to: int) -> int {
    if b.board@[from] == Piece::KING {
        to
    } else {
        b.king_sq as int
    }
}

/// The squares after the piece on `from` moves to `to`, with `king` the
/// king's square before the move (-1 for none), and the captures the move
/// makes, in the order they are made: sandwiches, shield walls, then the king.
pub open spec fn make_cells(
    cells: Seq<Piece>,
    rules: RulesEnum,
    side: Side,
    king: int,
    from: int,
    to: int,
) -> (Seq<Piece>, Seq<CapturedPiece>) {
    let n = spec_board_size(rules) as int;
    let c1 = moved_cells(cells, from, to);
    let (c2, k1) = sandwich_fold(c1, rules, n, to, spec_sandwiches(to, n));
    let (c3, k2) = if spec_has_shield_walls(rules) {
        spec_shield_walls(c2, n, side, to, to)
    } else {
        (c2, Seq::empty())
    };
    let king2 = if cells[from] == Piece::KING {
        to
    } else {
        king
    };
    let (c4, k3) = king_phase(c3, rules, n, side, king2, to);
    (c4, k1 + k2 + k3)
}

/// The squares after a move from `from` to `to` on `b`, and the captures it makes.
pub open spec fn spec_make_move(b: &Board, from: int, to: int) -> (Seq<Piece>, Seq<CapturedPiece>) {
    make_cells(b.board@, b.rules, b.side_to_move, b.king_sq as int, from, to)
}

/// The repetition table after one more visit of the position hashed `z`.
pub open spec fn rep_add(m: Map<u64, u8>, z: u64) -> Map<u64, u8> {
    if m.contains_key(z) {
        m.insert(z, if m[z] == 255 { 255u8 } else { (m[z] + 1) as u8 })
    } else {
        m.insert(z, 1u8)
    }
}

/// The repetition table after one visit of the position hashed `z` is taken back.
pub open spec fn rep_remove(m: Map<u64, u8>, z: u64) -> Map<u64, u8> {
    if m.contains_key(z) {
        if m[z] > 1 {
            m.insert(z, (m[z] - 1) as u8)
        } else {
            m.remove(z)
        }
    } else {
        m
    }
}

/// What `make_move` guarantees about the board and the undo record.
pub open spec fn make_move_post(old: &Board, mv: Move, new: &Board, undo: &UndoMove) -> bool {
    let from = mv.spec_from();
    let to = mv.spec_to();
    let (cells, caps) = spec_make_move(old, from, to);
    &&& new.wf()
    &&& new.board@ == cells
    &&& undo.wf()
    &&& undo.captures() == caps
    &&& undo.mv == mv
    &&& undo.last_move_to == old.last_move_to
    &&& !undo.was_capture
    &&& new.side_to_move == spec_opposite(old.side_to_move)
    &&& new.last_move_to == to
    &&& new.was_capture == (caps.len() > 0)
    &&& new.rep_table@ == rep_add(old.rep_table@, new.zobrist)
    &&& new.rules == old.rules
    &&& new.halfmove_clock == old.halfmove_clock
    &&& new.halfmove_count == old.halfmove_count
    &&& new.zobrist_data == old.zobrist_data
    &&& new.precomputed == old.precomputed
}

/// A move `make_move` accepts: a piece slides onto an empty square (or stays).
pub open spec fn move_applicable(b: &Board, mv: Move) -> bool {
    let from = mv.spec_from();
    let to = mv.spec_to();
    &&& b.wf()
    &&& 0 <= from < b.sqs()
    &&& 0 <= to < b.sqs()
    &&& b.board@[from] != Piece::EMPTY
    &&& (from == to || b.board@[to] == Piece::EMPTY)
}

fn vec_contains(v: &Vec<Square>, x: Square) -> (b: bool)
    ensures
        b == usizes(v@).contains(x as int),
{
    let mut i: usize = 0;
    while i < v.len()
        invariant
            i <= v@.len(),
            forall|k: int| 0 <= k < i ==> v@[k] != x,
        decreases v@.len() - i,
    {
        if v[i] == x {
            proof {
                assert(usizes(v@)[i as int] == x as int);
            }
            return true;
        }
        i += 1;
    }
    proof {
        if usizes(v@).contains(x as int) {
            let k = choose|k: int| 0 <= k < usizes(v@).len() && usizes(v@)[k] == x as int;
            assert(v@[k] == x);
        }
    }
    false
}

impl Board {
    fn add_position_to_rep_table(&mut self)
        ensures
            final(self).rep_table@ == rep_add(old(self).rep_table@, old(self).zobrist),
            *final(self) == (Board { rep_table: final(self).rep_table, ..*old(self) }),
    {
        let z = self.zobrist;
        let count = match self.rep_table.get(&z) {
            Some(c) => Some(*c),
            None => None,
        };
        match count {
            Some(c) => {
                let next = if c == 255 { 255 } else { c + 1 };
                self.rep_table.insert(z, next);
            },
            None => {
                self.rep_table.insert(z, 1);
            },
        }
    }

    /// Plays `mv`: the piece slides, then the captures it makes are taken off
    /// (sandwiches, shield walls where the variant has them, the king), the
    /// move passes to the other side and the new position is counted for
    /// repetitions. `undo` records what `unmake_move` needs.
    pub fn make_move(&mut self, mv: Move, undo: &mut UndoMove) -> (r: Result<(), &'static str>)
        requires
            move_applicable(old(self), mv),
            old(undo).wf(),
        ensures
            r is Ok,
            make_move_post(old(self), mv, final(self), final(undo)),
            final(undo).moved_piece == old(undo).moved_piece,
    {
        let ghost b0 = *self;
        let ghost n = self.size();
        undo.clear_captured_pieces();
        undo.last_move_to = self.last_move_to;
        undo.was_capture = false;
        undo.mv = mv;

        let from = mv.from();
        let to = mv.to();
        let piece = self.board[from];

        self.clear_piece(from);
        let res = self.set_piece(to, piece);
        proof {
            assert(res is Ok);
            assert(self.board@ == moved_cells(b0.board@, from as int, to as int));
        }
        let ghost c1 = self.board@;
        let ghost king1 = self.king_sq;
        let ghost b1 = *self;
        proof {
            assert(king1 == king_after(&b0, from as int, to as int));
            assert(undo.captures() =~= Seq::<CapturedPiece>::empty());
        }

        let sw_len = self.precomputed.sandwich_captures[to].len();
        let ghost sw = sandwich_view(self.precomputed.sandwich_captures@[to as int]@);
        proof {
            crate::board::utils::lemma_small_board(n);
            assert(sw == spec_sandwiches(to as int, n));
            lemma_sandwiches_on_board(to as int, n);
        }
        let mut i: usize = 0;
        while i < sw_len
            invariant
                self.wf(),
                self.same_except_cells(&b1),
                self.king_sq == king1,
                n == self.size(),
                to < self.sqs(),
                sw_len == self.precomputed.sandwich_captures@[to as int]@.len(),
                sw == sandwich_view(self.precomputed.sandwich_captures@[to as int]@),
                sw == spec_sandwiches(to as int, n),
                sw.len() <= 4,
                forall|k: int| 0 <= k < sw.len() ==> 0 <= #[trigger] sw[k].0 < n * n && 0 <= sw[k].1 < n * n && sw[k].0 != to,
                i <= sw_len,
                (self.board@, undo.captures()) == sandwich_fold(c1, self.rules, n, to as int, sw.subrange(0, i as int)),
                undo.wf(),
                undo.captured_pieces_count <= i,
                undo.mv == mv,
                undo.last_move_to == b0.last_move_to,
                !undo.was_capture,
                undo.moved_piece == old(undo).moved_piece,
            decreases sw_len - i,
        {
            let sandwich: SandwichCapture = self.precomputed.sandwich_captures[to][i];
            let ghost pre = sw.subrange(0, i as int);
            proof {
                assert(sw[i as int] == (sandwich.between_sq as int, sandwich.captor_sq as int));
                assert(sw.subrange(0, i + 1).drop_last() =~= pre);
                assert(sw.subrange(0, i + 1).last() == sw[i as int]);
            }
            if is_capture_possible(self, sandwich.between_sq, to, sandwich.captor_sq) {
                let captured = CapturedPiece {
                    square: sandwich.between_sq,
                    piece: self.board[sandwich.between_sq],
                };
                undo.add_captured_piece(captured);
                self.clear_piece(sandwich.between_sq);
            }
            i += 1;
        }
        proof {
            assert(sw.subrange(0, sw_len as int) =~= sw);
        }
        let ghost c2 = self.board@;
        let ghost k1 = undo.captures();

        self.last_move_to = to as OptionalSquare;

        if self.rules.has_shield_walls() {
            make_shield_wall_captures(self, to, undo);
        } else {
            proof {
                assert(undo.captures() =~= k1 + Seq::<CapturedPiece>::empty());
            }
        }
        let ghost c3 = self.board@;
        let ghost k12 = undo.captures();

        let side = self.side_to_move;
        if self.king_sq != -1 && side == Side::ATTACKERS {
            let king = self.king_sq as Square;
            proof {
                lemma_vh_neighbors(king as int, n);
            }
            if vec_contains(&self.precomputed.vertical_horizontal_neighbors[king], to)
                && king_is_surrounded(self) {
                undo.add_captured_piece(CapturedPiece { square: king, piece: Piece::KING });
                self.clear_piece(king);
                proof {
                    assert(undo.captures() =~= k12 + seq![CapturedPiece { square: king, piece: Piece::KING }]);
                }
            } else {
                proof {
                    assert(undo.captures() =~= k12 + Seq::<CapturedPiece>::empty());
                }
            }
        } else {
            proof {
                assert(undo.captures() =~= k12 + Seq::<CapturedPiece>::empty());
            }
        }

        self.flip_side();

        self.add_position_to_rep_table();
        self.was_capture = undo.captured_pieces_count > 0;
        Ok(())
    }

    pub fn make_move_simple(&mut self, mv: Move) -> (r: Result<(), &'static str>)
        requires
            move_applicable(old(self), mv),
        ensures
            r is Ok,
            exists|u: UndoMove| make_move_post(old(self), mv, final(self), &u),
    {
        let mut undo = UndoMove::new();
        let r = self.make_move(mv, &mut undo);
        proof {
            assert(make_move_post(old(self), mv, self, &undo));
        }
        r
    }
}

pub proof fn lemma_sandwiches_on_board(sq: int, n: int)
    requires
        3 <= n <= 11,
        0 <= sq < n * n,
    ensures
        spec_sandwiches(sq, n).len() <= 4,
        forall|k: int|
            0 <= k < spec_sandwiches(sq, n).len() ==> 0 <= #[trigger] spec_sandwiches(sq, n)[k].0 < n * n
                && 0 <= spec_sandwiches(sq, n)[k].1 < n * n && spec_sandwiches(sq, n)[k].0 != sq,
{
    crate::board::utils::lemma_square_parts(sq, n);
    let r = crate::board::utils::row_of(sq, n);
    let c = crate::board::utils::col_of(sq, n);
    if c + 2 < n {
        crate::board::utils::lemma_square_compose(r, c + 2, n);
    }
    if c >= 2 {
        crate::board::utils::lemma_square_compose(r, c - 2, n);
    }
    if r + 2 < n {
        crate::board::utils::lemma_square_compose(r + 2, c, n);
        assert(crate::board::utils::square_at(r + 2, c, n) == sq + 2 * n) by (nonlinear_arith)
            requires
                sq == r * n + c,
        ;
    }
    if r >= 2 {
        crate::board::utils::lemma_square_compose(r - 2, c, n);
        assert(crate::board::utils::square_at(r - 2, c, n) == sq - 2 * n) by (nonlinear_arith)
            requires
                sq == r * n + c,
        ;
    }
}

} // verus!
