use vstd::prelude::*;
use crate::board::Board;
use crate::board::constants::HOLE;
use crate::board::rules::RulesEnum;
use crate::board::types::{spec_side_index, Piece, Side};
use crate::utils::bits::{bit8, lemma_bit8_or_single, lemma_bit8_zero};

verus! {

/// Bytes per plane: room for the 121 squares of the largest board.
pub const PLANE_BYTES: usize = 16;

/// Bytes of a stored position: three planes, the side, the repetition count.
pub const RECORD_BYTES: usize = 50;

/// A position packed for the training data: three bit planes (attackers,
/// defenders, king), square `i` at bit `i % 8` of byte `i / 8` of its plane,
/// then the side to move (1 for the defenders) and a repetition count.
pub struct BitPosition {
    pub planes: Vec<u8>,
    pub stm: u8,
    pub rep: u8,
}

/// Bit `idx` of plane `plane`.
pub open spec fn plane_bit(planes: Seq<u8>, plane: int, idx: int) -> bool {
    bit8(planes[plane * 16 + idx / 8], idx % 8)
}

pub open spec fn plane_piece(plane: int) -> Piece {
    if plane == 0 {
        Piece::ATTACKER
    } else if plane == 1 {
        Piece::DEFENDER
    } else {
        Piece::KING
    }
}

/// What `to_board` puts on square `idx`: the first plane with the bit set.
pub open spec fn decoded_piece(planes: Seq<u8>, idx: int) -> Piece {
    if plane_bit(planes, 0, idx) {
        Piece::ATTACKER
    } else if plane_bit(planes, 1, idx) {
        Piece::DEFENDER
    } else if plane_bit(planes, 2, idx) {
        Piece::KING
    } else {
        Piece::EMPTY
    }
}

/// The squares `to_board` fills on a board of `sqs` squares: a king bit is
/// followed only while no king stands yet.
pub open spec fn decoded_cells(planes: Seq<u8>, sqs: int) -> Seq<Piece>
    decreases sqs,
{
    if sqs <= 0 {
        Seq::empty()
    } else {
        let prev = decoded_cells(planes, sqs - 1);
        let p = decoded_piece(planes, sqs - 1);
        if p == Piece::KING && prev.contains(Piece::KING) {
            prev.push(Piece::EMPTY)
        } else {
            prev.push(p)
        }
    }
}

/// Squares whose planes were packed from `cells` unpack to `cells`, as long
/// as `cells` holds at most one king.
proof fn lemma_decoded_prefix(planes: Seq<u8>, cells: Seq<Piece>, k: int)
    requires
        0 <= k <= cells.len() <= 128,
        forall|plane: int, idx: int|
            0 <= plane < 3 && 0 <= idx < 128 ==> (#[trigger] plane_bit(planes, plane, idx) <==> (idx < cells.len()
                && cells[idx] == plane_piece(plane))),
        forall|i: int, j: int|
            0 <= i < cells.len() && 0 <= j < cells.len() && cells[i] == Piece::KING && cells[j] == Piece::KING ==> i == j,
    ensures
        decoded_cells(planes, k) == cells.subrange(0, k),
    decreases k,
{
    if k > 0 {
        lemma_decoded_prefix(planes, cells, k - 1);
        let prev = cells.subrange(0, k - 1);
        let i = k - 1;
        assert(plane_bit(planes, 0, i) == (cells[i] == Piece::ATTACKER));
        assert(plane_bit(planes, 1, i) == (cells[i] == Piece::DEFENDER));
        assert(plane_bit(planes, 2, i) == (cells[i] == Piece::KING));
        if cells[i] == Piece::KING && prev.contains(Piece::KING) {
            let j = choose|j: int| 0 <= j < prev.len() && prev[j] == Piece::KING;
            assert(cells[j] == Piece::KING);
        }
        assert(cells.subrange(0, k) =~= prev.push(cells[i]));
    }
}

/// Packing a position and unpacking it for the same variant gives back its
/// squares and its side to move.
pub proof fn lemma_bit_position_round_trip(b: &Board, bp: &BitPosition, back: &Board)
    requires
        b.wf(),
        bp.encodes(b.board@),
        bp.stm == spec_side_index(b.side_to_move),
        back.wf(),
        back.rules == b.rules,
        back.board@ == decoded_cells(bp.planes@, back.sqs()),
        back.side_to_move == (if bp.stm == 0 {
            Side::ATTACKERS
        } else {
            Side::DEFENDERS
        }),
    ensures
        back.board@ == b.board@,
        back.side_to_move == b.side_to_move,
        back.king_sq == b.king_sq,
        back.attackers_count == b.attackers_count,
        back.defenders_count == b.defenders_count,
{
    let n = b.size();
    assert(n * n <= 121) by (nonlinear_arith)
        requires
            3 <= n <= 11,
    ;
    assert forall|i: int, j: int|
        0 <= i < b.board@.len() && 0 <= j < b.board@.len() && b.board@[i] == Piece::KING && b.board@[j] == Piece::KING
            implies i == j by {
        assert(b.king_sq == i && b.king_sq == j);
    }
    lemma_decoded_prefix(bp.planes@, b.board@, b.board@.len() as int);
    assert(b.board@.subrange(0, b.board@.len() as int) =~= b.board@);
    crate::moves::roundtrip::lemma_wf_same_cells(back, b);
}

impl BitPosition {
    /// A copy with the same planes, side and repetition count.
    pub fn copied(&self) -> (c: Self)
        ensures
            c.planes@ == self.planes@,
            c.stm == self.stm,
            c.rep == self.rep,
    {
        let mut planes: Vec<u8> = Vec::new();
        let mut i: usize = 0;
        while i < self.planes.len()
            invariant
                i <= self.planes@.len(),
                planes@ == self.planes@.subrange(0, i as int),
            decreases self.planes@.len() - i,
        {
            planes.push(self.planes[i]);
            proof {
                assert(self.planes@.subrange(0, i + 1) =~= self.planes@.subrange(0, i as int).push(self.planes@[i as int]));
            }
            i += 1;
        }
        proof {
            assert(self.planes@.subrange(0, i as int) =~= self.planes@);
        }
        BitPosition { planes, stm: self.stm, rep: self.rep }
    }

    /// Forty-eight plane bytes.
    pub open spec fn wf(&self) -> bool {
        self.planes@.len() == 48
    }

    /// The planes hold exactly the pieces of `cells`: on the board's squares
    /// each plane marks its kind, and no bit beyond them is set.
    pub open spec fn encodes(&self, cells: Seq<Piece>) -> bool {
        &&& self.wf()
        &&& forall|plane: int, idx: int|
            0 <= plane < 3 && 0 <= idx < 128 ==> (#[trigger] plane_bit(self.planes@, plane, idx) <==> (idx < cells.len()
                && cells[idx] == plane_piece(plane)))
    }

    pub fn from_board(board: &Board, rep: u8) -> (bp: Self)
        requires
            board.wf(),
        ensures
            bp.encodes(board.board@),
            bp.stm == spec_side_index(board.side_to_move),
            bp.rep == rep,
    {
        let mut planes: Vec<u8> = Vec::new();
        let mut k: usize = 0;
        while k < 48
            invariant
                k <= 48,
                planes@.len() == k,
                forall|j: int| 0 <= j < k ==> #[trigger] planes@[j] == 0u8,
            decreases 48 - k,
        {
            planes.push(0);
            k += 1;
        }
        let sqs = board.board.len();
        let ghost cells = board.board@;
        proof {
            crate::board::utils::lemma_small_board(board.size());
            assert forall|plane: int, idx: int| 0 <= plane < 3 && 0 <= idx < 128 implies !#[trigger] plane_bit(
                planes@,
                plane,
                idx,
            ) by {
                lemma_bit8_zero(idx % 8);
            }
        }
        let mut idx: usize = 0;
        while idx < sqs
            invariant
                sqs == cells.len(),
                sqs <= 121,
                cells == board.board@,
                idx <= sqs,
                planes@.len() == 48,
                forall|plane: int, i: int|
                    0 <= plane < 3 && 0 <= i < 128 ==> (#[trigger] plane_bit(planes@, plane, i) <==> (i < idx
                        && cells[i] == plane_piece(plane))),
            decreases sqs - idx,
        {
            let byte = idx / 8;
            let bit = idx % 8;
            let p = board.board[idx];
            let plane: usize = match p {
                Piece::ATTACKER => 0,
                Piece::DEFENDER => 1,
                Piece::KING => 2,
                Piece::EMPTY => 3,
            };
            let ghost before = planes@;
            if plane < 3 {
                let at = plane * 16 + byte;
                let v = planes[at] | (1u8 << (bit as u8));
                planes.set(at, v);
                proof {
                    assert forall|pl: int, i: int| 0 <= pl < 3 && 0 <= i < 128 implies (#[trigger] plane_bit(
                        planes@,
                        pl,
                        i,
                    ) <==> (i < idx + 1 && cells[i] == plane_piece(pl))) by {
                        lemma_bit8_or_single(before[at as int], bit as u8, (i % 8) as u8);
                        assert(plane_bit(before, pl, i) <==> (i < idx && cells[i] == plane_piece(pl)));
                        assert(i == 8 * (i / 8) + i % 8 && 0 <= i % 8 < 8 && 0 <= i / 8 < 16) by (nonlinear_arith)
                            requires
                                0 <= i < 128,
                        ;
                        assert(idx == 8 * byte + bit && bit < 8 && byte < 16) by (nonlinear_arith)
                            requires
                                byte == idx / 8,
                                bit == idx % 8,
                                idx < 121,
                        ;
                        assert(plane_piece(plane as int) == p);
                        if pl * 16 + i / 8 == at as int {
                            assert(pl == plane as int && i / 8 == byte as int);
                            assert(plane_bit(planes@, pl, i) == bit8(v, i % 8));
                            assert((i % 8 == bit as int) == (i == idx as int));
                        } else {
                            assert(plane_bit(planes@, pl, i) == plane_bit(before, pl, i));
                            if i == idx as int {
                                assert(pl != plane as int);
                            }
                        }
                    }
                }
            } else {
                proof {
                    assert forall|pl: int, i: int| 0 <= pl < 3 && 0 <= i < 128 implies (#[trigger] plane_bit(
                        planes@,
                        pl,
                        i,
                    ) <==> (i < idx + 1 && cells[i] == plane_piece(pl))) by {
                        if i == idx {
                            assert(cells[i] == Piece::EMPTY);
                        }
                    }
                }
            }
            idx += 1;
        }
        BitPosition { planes, stm: board.side_to_move.index() as u8, rep }
    }

    /// The bits of square `idx` in plane `plane`.
    pub fn bit_at(&self, plane: usize, idx: usize) -> (b: bool)
        requires
            self.wf(),
            plane < 3,
            idx < 128,
        ensures
            b == plane_bit(self.planes@, plane as int, idx as int),
    {
        let byte = self.planes[plane * 16 + idx / 8];
        let bit = (idx % 8) as u8;
        (byte >> bit) & 1u8 == 1u8
    }

    /// A board of the given variant with the packed pieces and side to move;
    /// on each square the attacker plane wins over the defender plane, which
    /// wins over the king plane, and a second king is left out.
    pub fn to_board(&self, variant: RulesEnum) -> (board: Board)
        requires
            self.wf(),
        ensures
            board.wf(),
            board.rules == variant,
            board.board@ == decoded_cells(self.planes@, board.sqs()),
            board.side_to_move == (if self.stm == 0 {
                Side::ATTACKERS
            } else {
                Side::DEFENDERS
            }),
            board.last_move_to == HOLE,
            board.halfmove_clock == 0,
            board.halfmove_count == 0,
            board.rep_table@ == Map::<u64, u8>::empty(),
    {
        let mut board = Board::new();
        board.set_rules(variant);
        let n = board.board_size();
        let sqs = n * n;
        proof {
            crate::board::utils::lemma_small_board(n as int);
            assert(board.board@.subrange(0, 0) =~= decoded_cells(self.planes@, 0));
        }
        let mut idx: usize = 0;
        while idx < sqs
            invariant
                board.wf(),
                board.rules == variant,
                sqs == board.sqs(),
                sqs <= 121,
                self.wf(),
                idx <= sqs,
                board.board@.subrange(0, idx as int) == decoded_cells(self.planes@, idx as int),
                forall|i: int| idx <= i < sqs ==> #[trigger] board.board@[i] == Piece::EMPTY,
                (board.king_sq != HOLE) == decoded_cells(self.planes@, idx as int).contains(Piece::KING),
                board.side_to_move == Side::ATTACKERS,
                board.last_move_to == HOLE,
                board.halfmove_clock == 0,
                board.halfmove_count == 0,
                board.rep_table@ == Map::<u64, u8>::empty(),
            decreases sqs - idx,
        {
            let ghost prev = decoded_cells(self.planes@, idx as int);
            let ghost before = board.board@;
            let piece = if self.bit_at(0, idx) {
                Piece::ATTACKER
            } else if self.bit_at(1, idx) {
                Piece::DEFENDER
            } else if self.bit_at(2, idx) {
                Piece::KING
            } else {
                Piece::EMPTY
            };
            if piece != Piece::EMPTY && (piece != Piece::KING || board.king_sq == HOLE) {
                let res = board.set_piece(idx, piece);
                proof {
                    assert(res is Ok);
                }
            }
            proof {
                let next = decoded_cells(self.planes@, idx + 1);
                assert(board.board@.subrange(0, idx + 1) =~= next);
                if piece == Piece::KING && before.subrange(0, idx as int).contains(Piece::KING) {
                    assert(next == prev.push(Piece::EMPTY));
                }
                assert(next.contains(Piece::KING) <==> (prev.contains(Piece::KING) || next[idx as int] == Piece::KING)) by {
                    if next.contains(Piece::KING) {
                        let j = choose|j: int| 0 <= j < next.len() && next[j] == Piece::KING;
                        if j < idx {
                            assert(prev[j] == next[j]);
                        }
                    }
                    if prev.contains(Piece::KING) {
                        let j = choose|j: int| 0 <= j < prev.len() && prev[j] == Piece::KING;
                        assert(next[j] == prev[j]);
                    }
                }
            }
            idx += 1;
        }
        proof {
            assert(board.board@.subrange(0, sqs as int) =~= board.board@);
        }
        let side = if self.stm == 0 {
            Side::ATTACKERS
        } else {
            Side::DEFENDERS
        };
        board.set_side(side);
        board
    }

    /// The record as stored: the planes, then the side byte and the repetition byte.
    pub open spec fn record(&self) -> Seq<u8> {
        self.planes@.push(self.stm).push(self.rep)
    }

    /// The position a stored record holds: the planes from its first 48
    /// bytes, then the side and the repetition count; only a record of
    /// exactly 50 bytes holds one.
    pub fn from_bytes(b: &[u8]) -> (r: Option<Self>)
        ensures
            r is Some <==> b@.len() == RECORD_BYTES,
            r matches Some(p) ==> p.wf() && p.record() == b@,
    {
        if b.len() != RECORD_BYTES {
            return None;
        }
        let mut planes: Vec<u8> = Vec::new();
        let mut i: usize = 0;
        while i < 48
            invariant
                b@.len() == RECORD_BYTES,
                i <= 48,
                planes@ == b@.subrange(0, i as int),
            decreases 48 - i,
        {
            planes.push(b[i]);
            proof {
                assert(b@.subrange(0, i + 1) =~= b@.subrange(0, i as int).push(b@[i as int]));
            }
            i += 1;
        }
        let p = BitPosition { planes, stm: b[48], rep: b[49] };
        proof {
            assert(p.record() =~= b@);
        }
        Some(p)
    }

    pub fn as_bytes(&self) -> (b: Vec<u8>)
        requires
            self.wf(),
        ensures
            b@ == self.record(),
    {
        let mut b: Vec<u8> = Vec::new();
        let mut i: usize = 0;
        while i < 48
            invariant
                self.wf(),
                i <= 48,
                b@ == self.planes@.subrange(0, i as int),
            decreases 48 - i,
        {
            b.push(self.planes[i]);
            proof {
                assert(self.planes@.subrange(0, i + 1) =~= self.planes@.subrange(0, i as int).push(self.planes@[i as int]));
            }
            i += 1;
        }
        proof {
            assert(self.planes@.subrange(0, 48) =~= self.planes@);
        }
        b.push(self.stm);
        b.push(self.rep);
        b
    }
}

/// Reading back the record of a packed position gives the position.
pub proof fn lemma_record_round_trip(p: &BitPosition, q: &BitPosition)
    requires
        p.wf(),
        q.wf(),
        q.record() == p.record(),
    ensures
        q.planes@ == p.planes@,
        q.stm == p.stm,
        q.rep == p.rep,
{
    assert(q.planes@ =~= q.record().subrange(0, 48));
    assert(p.planes@ =~= p.record().subrange(0, 48));
    assert(q.record()[48] == q.stm && p.record()[48] == p.stm);
    assert(q.record()[49] == q.rep && p.record()[49] == p.rep);
}

} // verus!
