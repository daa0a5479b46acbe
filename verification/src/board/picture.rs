use vstd::prelude::*;
use vstd::string::StringSliceAdditionalSpecFns;
use crate::board::Board;
use crate::board::constants::HOLE;
use crate::board::fen::{byte_views, empty_cells, segments};
use crate::board::rules::RulesEnum;
use crate::board::types::Piece;
use crate::board::utils::{col_of, row_of, square_at};

verus! {

// ---------------------------------------------------------------------------
// A board drawn as text: one line per rank from the top, `A`, `D`, `K` for
// the pieces and `.` for an empty square; any other character is ignored.
// ---------------------------------------------------------------------------

/// What a character of a drawing stands for: `None` for a character that is
/// ignored, `Some(None)` for an empty square, `Some(Some(p))` for a piece.
pub open spec fn marker(c: u8) -> Option<Option<Piece>> {
    if c == 65u8 {
        Some(Some(Piece::ATTACKER))
    } else if c == 68u8 {
        Some(Some(Piece::DEFENDER))
    } else if c == 75u8 {
        Some(Some(Piece::KING))
    } else if c == 46u8 {
        Some(None)
    } else {
        None
    }
}

/// The squares after drawing `line` on rank `row`, and how many squares it covers.
pub open spec fn line_fill(cells: Seq<Piece>, line: Seq<u8>, n: int, row: int) -> (Seq<Piece>, int)
    decreases line.len(),
{
    if line.len() == 0 {
        (cells, 0)
    } else {
        let (c, idx) = line_fill(cells, line.drop_last(), n, row);
        match marker(line.last()) {
            Some(Some(p)) => (c.update(square_at(row, idx, n), p), idx + 1),
            Some(None) => (c, idx + 1),
            None => (c, idx),
        }
    }
}

/// How many kings a line draws.
pub open spec fn line_kings(line: Seq<u8>) -> int
    decreases line.len(),
{
    if line.len() == 0 {
        0
    } else {
        line_kings(line.drop_last()) + if line.last() == 75u8 {
            1int
        } else {
            0int
        }
    }
}

/// The squares after drawing the first `k` lines, from the top rank down.
pub open spec fn picture_fill(lines: Seq<Seq<u8>>, n: int, k: int) -> Seq<Piece>
    decreases k,
{
    if k <= 0 {
        empty_cells(n * n)
    } else {
        line_fill(picture_fill(lines, n, k - 1), lines[k - 1], n, n - k).0
    }
}

pub open spec fn picture_kings(lines: Seq<Seq<u8>>, k: int) -> int
    decreases k,
{
    if k <= 0 {
        0
    } else {
        picture_kings(lines, k - 1) + line_kings(lines[k - 1])
    }
}

/// A drawing that fits the board: no more lines holding characters than
/// ranks, no more squares per line than files, and at most one king.
pub open spec fn picture_fits(lines: Seq<Seq<u8>>, n: int) -> bool {
    &&& forall|r: int| 0 <= r < lines.len() ==> line_fill(Seq::empty(), #[trigger] lines[r], n, 0).1 <= n
    &&& forall|r: int| n <= r < lines.len() ==> (#[trigger] lines[r]).len() == 0
    &&& picture_kings(lines, lines.len() as int) <= 1
}

proof fn lemma_line_fill_count(cells: Seq<Piece>, c2: Seq<Piece>, line: Seq<u8>, n: int, row: int, row2: int)
    ensures
        line_fill(cells, line, n, row).1 == line_fill(c2, line, n, row2).1,
    decreases line.len(),
{
    if line.len() > 0 {
        lemma_line_fill_count(cells, c2, line.drop_last(), n, row, row2);
    }
}

proof fn lemma_picture_kings_mono(lines: Seq<Seq<u8>>, k: int, m: int)
    requires
        0 <= k <= m <= lines.len(),
        forall|r: int| 0 <= r < lines.len() ==> line_kings(#[trigger] lines[r]) >= 0,
    ensures
        picture_kings(lines, k) <= picture_kings(lines, m),
    decreases m - k,
{
    if k < m {
        lemma_picture_kings_mono(lines, k, m - 1);
    }
}

proof fn lemma_line_kings_nonneg(line: Seq<u8>)
    ensures
        line_kings(line) >= 0,
    decreases line.len(),
{
    if line.len() > 0 {
        lemma_line_kings_nonneg(line.drop_last());
    }
}

impl Board {
    /// Draws one line on rank `row`.
    fn draw_line(&mut self, line: &Vec<u8>, row: usize)
        requires
            old(self).wf(),
            row < old(self).size(),
            line_fill(Seq::empty(), line@, old(self).size(), 0).1 <= old(self).size(),
            line_kings(line@) == 0 || old(self).king_sq == HOLE,
            line_kings(line@) <= 1,
            forall|sq: int|
                0 <= sq < old(self).sqs() && row_of(sq, old(self).size()) == row ==> #[trigger] old(self).board@[sq]
                    == Piece::EMPTY,
        ensures
            final(self).wf(),
            final(self).same_except_cells(old(self)),
            final(self).board@ == line_fill(old(self).board@, line@, old(self).size(), row as int).0,
            line_kings(line@) == 1 ==> final(self).king_sq != HOLE,
            line_kings(line@) == 0 ==> final(self).king_sq == old(self).king_sq,
            forall|sq: int|
                0 <= sq < final(self).sqs() && row_of(sq, final(self).size()) != row ==> #[trigger] final(self).board@[sq]
                    == old(self).board@[sq],
    {
        let ghost o = *self;
        let n = self.board_size();
        let ghost nn = n as int;
        proof {
            crate::board::utils::lemma_small_board(nn);
        }
        let mut idx: usize = 0;
        let mut i: usize = 0;
        proof {
            assert(line@.subrange(0, 0) =~= Seq::<u8>::empty());
            lemma_line_fill_prefix(line@, 0, nn);
            lemma_line_kings_prefix(line@, 0);
        }
        while i < line.len()
            invariant
                self.wf(),
                o == *old(self),
                self.same_except_cells(&o),
                n == self.size(),
                nn == n,
                3 <= n <= 11,
                row < n,
                i <= line@.len(),
                line_fill(o.board@, line@.subrange(0, i as int), nn, row as int) == (self.board@, idx as int),
                line_fill(Seq::empty(), line@, nn, 0).1 <= n,
                line_fill(Seq::empty(), line@.subrange(0, i as int), nn, 0).1 == idx,
                idx <= line_fill(Seq::empty(), line@, nn, 0).1,
                line_kings(line@) <= 1,
                line_kings(line@) == 0 || o.king_sq == HOLE,
                line_kings(line@.subrange(0, i as int)) == 0 ==> self.king_sq == o.king_sq,
                line_kings(line@.subrange(0, i as int)) == 1 ==> self.king_sq != HOLE,
                line_kings(line@.subrange(0, i as int)) <= line_kings(line@),
                forall|sq: int|
                    0 <= sq < n * n && row_of(sq, nn) == row && col_of(sq, nn) >= idx ==> #[trigger] self.board@[sq]
                        == Piece::EMPTY,
                forall|sq: int|
                    0 <= sq < n * n && row_of(sq, nn) != row ==> #[trigger] self.board@[sq] == o.board@[sq],
            decreases line@.len() - i,
        {
            let c = line[i];
            proof {
                let pre = line@.subrange(0, i as int);
                assert(line@.subrange(0, i + 1).drop_last() =~= pre);
                assert(line@.subrange(0, i + 1).last() == c);
                lemma_line_fill_prefix(line@, i + 1, nn);
                lemma_line_kings_prefix(line@, i + 1);
                lemma_line_kings_nonneg(pre);
            }
            if c == 65u8 || c == 68u8 || c == 75u8 {
                let piece = if c == 65u8 {
                    Piece::ATTACKER
                } else if c == 68u8 {
                    Piece::DEFENDER
                } else {
                    Piece::KING
                };
                proof {
                    crate::board::utils::lemma_square_compose(row as int, idx as int, nn);
                }
                let sq = crate::board::utils::get_square(row, idx, n);
                let ghost before = self.board@;
                let res = self.set_piece(sq, piece);
                proof {
                    assert(res is Ok);
                    assert forall|s: int|
                        0 <= s < n * n && row_of(s, nn) == row && col_of(s, nn) >= idx + 1 implies #[trigger] self.board@[s]
                            == Piece::EMPTY by {
                        assert(s != sq);
                        assert(before[s] == Piece::EMPTY);
                    }
                    assert forall|s: int| 0 <= s < n * n && row_of(s, nn) != row implies #[trigger] self.board@[s]
                        == o.board@[s] by {
                        assert(s != sq);
                    }
                }
                idx += 1;
            } else if c == 46u8 {
                idx += 1;
            }
            i += 1;
        }
        proof {
            assert(line@.subrange(0, line@.len() as int) =~= line@);
        }
    }
}

proof fn lemma_line_fill_prefix(line: Seq<u8>, k: int, n: int)
    requires
        0 <= k <= line.len(),
    ensures
        line_fill(Seq::empty(), line.subrange(0, k), n, 0).1 <= line_fill(Seq::empty(), line, n, 0).1,
    decreases line.len() - k,
{
    if k < line.len() {
        lemma_line_fill_prefix(line, k + 1, n);
        assert(line.subrange(0, k + 1).drop_last() =~= line.subrange(0, k));
    } else {
        assert(line.subrange(0, k) =~= line);
    }
}

proof fn lemma_line_kings_prefix(line: Seq<u8>, k: int)
    requires
        0 <= k <= line.len(),
    ensures
        line_kings(line.subrange(0, k)) <= line_kings(line),
    decreases line.len() - k,
{
    if k < line.len() {
        lemma_line_kings_prefix(line, k + 1);
        assert(line.subrange(0, k + 1).drop_last() =~= line.subrange(0, k));
    } else {
        assert(line.subrange(0, k) =~= line);
    }
}

/// Empties `board` and draws `position` on it, one line per rank from the
/// top; `A`, `D`, `K` are pieces, `.` an empty square, other characters are
/// skipped.
pub fn set_board_from_str(board: &mut Board, position: &str)
    requires
        old(board).wf(),
        picture_fits(segments(position.spec_bytes(), 10u8), old(board).size()),
    ensures
        final(board).is_empty_position_but_cells(old(board).rules),
        final(board).board@ == picture_fill(
            segments(position.spec_bytes(), 10u8),
            old(board).size(),
            segments(position.spec_bytes(), 10u8).len() as int,
        ),
{
    board.clear();
    let b = position.as_bytes();
    let lines = crate::board::fen::split_segments(b, 0, b.len(), 10u8);
    let ghost lv = byte_views(lines@);
    let n = board.board_size();
    let ghost nn = n as int;
    let ghost cleared = *board;
    proof {
        assert(b@.subrange(0, b@.len() as int) =~= b@);
        assert(board.board@ =~= picture_fill(lv, nn, 0));
        assert forall|r: int| 0 <= r < lv.len() implies line_kings(#[trigger] lv[r]) >= 0 by {
            lemma_line_kings_nonneg(lv[r]);
        }
    }
    let mut r: usize = 0;
    while r < lines.len()
        invariant
            board.wf(),
            board.same_except_cells(&cleared),
            cleared.is_empty_position(cleared.rules),
            n == board.size(),
            nn == n,
            3 <= n <= 11,
            lv == byte_views(lines@),
            picture_fits(lv, nn),
            forall|k: int| 0 <= k < lv.len() ==> line_kings(#[trigger] lv[k]) >= 0,
            r <= lines@.len(),
            board.board@ == picture_fill(lv, nn, r as int),
            picture_kings(lv, r as int) == 0 ==> board.king_sq == HOLE,
            forall|sq: int|
                0 <= sq < n * n && row_of(sq, nn) < n - r ==> #[trigger] board.board@[sq] == Piece::EMPTY,
        decreases lines@.len() - r,
    {
        proof {
            assert(lv[r as int] == lines@[r as int]@);
            lemma_picture_kings_mono(lv, r + 1, lv.len() as int);
            lemma_picture_kings_mono(lv, 0, r as int);
            lemma_line_kings_nonneg(lv[r as int]);
            assert(line_fill(Seq::empty(), lv[r as int], nn, 0).1 <= nn);
        }
        if lines[r].len() > 0 {
            let row = n - 1 - r;
            board.draw_line(&lines[r], row);
        } else {
            proof {
                assert(line_fill(board.board@, lv[r as int], nn, nn - r - 1).0 == board.board@);
            }
        }
        r += 1;
    }
}

impl Board {
    /// An empty board of the given variant, attackers to move, whatever its squares hold.
    pub open spec fn is_empty_position_but_cells(&self, rules: RulesEnum) -> bool {
        &&& self.wf()
        &&& self.rules == rules
        &&& self.side_to_move == crate::board::types::Side::ATTACKERS
        &&& self.rep_table@ == Map::<u64, u8>::empty()
        &&& self.last_move_to == HOLE
        &&& !self.was_capture
        &&& self.halfmove_clock == 0
        &&& self.halfmove_count == 0
    }
}

} // verus!
