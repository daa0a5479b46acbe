use vstd::prelude::*;
use std::collections::VecDeque;
use rand::rngs::StdRng;
use crate::board::Board;
use crate::board::constants::HOLE;
use crate::board::position_export::BitPosition;
use crate::board::rules::RulesEnum;
use crate::board::types::{spec_side_index, Piece, Square};
use crate::board::utils::{is_corner, square_at};
use crate::board::zobrist::random_in_range;
use crate::evaluation::terminal::TerminalType;
use crate::moves::legal::lemma_generate_moves_legal;
use crate::moves::movegen::{move_pairs, spec_generate_moves, MoveGen};
use crate::search::policy::{is_slide, lemma_policy_round_trip, move_to_policy_index, spec_policy_index};
use crate::search::sample::{LegalMask, PendingSample, ACTIONS, FLAG_POLICY_VALID, KING_CORNER_NONE};

verus! {

/// How many of the last positions of a game the curriculum keeps.
pub const CURRICULUM_TAIL: usize = 25;

/// How many positions the curriculum needs before it is drawn from.
pub const CURRICULUM_MIN_READY: usize = 100;

/// Positions from the ends of past games, oldest first, at most `max_size` of
/// them (the oldest leave first).
pub struct CurriculumBuffer {
    pub positions: VecDeque<BitPosition>,
    pub max_size: usize,
}

/// What a stored position holds.
pub type PositionView = (Seq<u8>, u8, u8);

pub open spec fn bp_view(b: BitPosition) -> PositionView {
    (b.planes@, b.stm, b.rep)
}

/// Appends `x`, first dropping the oldest entry when `m` or more are held.
pub open spec fn push_bounded(q: Seq<PositionView>, x: PositionView, m: int) -> Seq<PositionView> {
    (if q.len() >= m && q.len() > 0 {
        q.drop_first()
    } else {
        q
    }).push(x)
}

/// Appends each of `xs` in turn with `push_bounded`.
pub open spec fn push_all(q: Seq<PositionView>, xs: Seq<PositionView>, m: int) -> Seq<PositionView>
    decreases xs.len(),
{
    if xs.len() == 0 {
        q
    } else {
        push_bounded(push_all(q, xs.drop_last(), m), xs.last(), m)
    }
}

/// Where the kept end of a game of `len` positions starts.
pub open spec fn tail_start(len: int) -> int {
    if len > CURRICULUM_TAIL {
        len - CURRICULUM_TAIL
    } else {
        0
    }
}

impl CurriculumBuffer {
    /// The stored positions, oldest first; `max_size` bounds how many.
    pub open spec fn contents(&self) -> Seq<PositionView> {
        self.positions@.map_values(|b: BitPosition| bp_view(b))
    }

    pub fn new(max_size: usize) -> (c: Self)
        ensures
            c.positions@.len() == 0,
            c.max_size == max_size,
    {
        CurriculumBuffer { positions: VecDeque::new(), max_size }
    }

    /// Stores a position, dropping the oldest one first when the buffer is full.
    pub fn push_position(&mut self, bp: BitPosition)
        ensures
            final(self).max_size == old(self).max_size,
            final(self).contents() == push_bounded(old(self).contents(), bp_view(bp), old(self).max_size as int),
    {
        if self.positions.len() >= self.max_size {
            self.positions.pop_front();
        }
        self.positions.push_back(bp);
        proof {
            assert(self.contents() =~= push_bounded(old(self).contents(), bp_view(bp), old(self).max_size as int));
        }
    }

    /// Keeps the last `CURRICULUM_TAIL` positions of a game.
    pub fn push_game_tail(&mut self, history: &[BitPosition])
        ensures
            final(self).max_size == old(self).max_size,
            final(self).contents() == push_all(
                old(self).contents(),
                history@.subrange(tail_start(history@.len() as int), history@.len() as int).map_values(
                    |b: BitPosition| bp_view(b),
                ),
                old(self).max_size as int,
            ),
    {
        let n = history.len();
        let start = if n > CURRICULUM_TAIL {
            n - CURRICULUM_TAIL
        } else {
            0
        };
        let ghost tail = history@.subrange(start as int, n as int).map_values(|b: BitPosition| bp_view(b));
        let mut i: usize = start;
        while i < n
            invariant
                start <= i <= n,
                n == history@.len(),
                start == tail_start(n as int),
                tail == history@.subrange(start as int, n as int).map_values(|b: BitPosition| bp_view(b)),
                self.max_size == old(self).max_size,
                self.contents() == push_all(old(self).contents(), tail.subrange(0, i - start), self.max_size as int),
            decreases n - i,
        {
            let bp = history[i].copied();
            self.push_position(bp);
            proof {
                let k = i - start;
                assert(tail.subrange(0, k + 1).drop_last() =~= tail.subrange(0, k));
                assert(tail.subrange(0, k + 1).last() == bp_view(history@[i as int]));
            }
            i += 1;
        }
        proof {
            assert(tail.subrange(0, n - start) =~= tail);
        }
    }

    /// A stored position drawn at random, or nothing when none is stored.
    pub fn sample(&self, rnd: &mut StdRng) -> (r: Option<BitPosition>)
        ensures
            self.positions@.len() == 0 <==> r is None,
            r matches Some(b) ==> self.contents().contains(bp_view(b)),
    {
        if self.positions.len() == 0 {
            return None;
        }
        let idx = random_in_range(rnd, 0, self.positions.len() - 1);
        let b = self.positions[idx].copied();
        proof {
            assert(self.contents()[idx as int] == bp_view(b));
        }
        Some(b)
    }

    /// Whether enough positions are stored to draw from.
    pub fn is_ready(&self) -> (b: bool)
        ensures
            b == (self.positions@.len() >= CURRICULUM_MIN_READY),
    {
        self.positions.len() >= CURRICULUM_MIN_READY
    }
}

/// The squares are distinct, empty on the board, and not corners.
pub open spec fn free_list(board: &Board, v: Seq<Square>) -> bool {
    &&& forall|k: int| 0 <= k < v.len() ==> #[trigger] v[k] < board.sqs()
    &&& forall|k: int| 0 <= k < v.len() ==> board.board@[#[trigger] v[k] as int] == Piece::EMPTY
    &&& forall|k: int| 0 <= k < v.len() ==> !is_corner(#[trigger] v[k] as int, board.size())
    &&& forall|j: int, k: int| 0 <= j < k < v.len() ==> v[j] != v[k]
}

/// Puts `piece` on one of the listed empty squares, drawn at random, and
/// takes that square off the list; does nothing when the list is empty.
pub fn set_piece_to_random_square(board: &mut Board, empty_squares: &mut Vec<Square>, rnd: &mut StdRng, piece: Piece)
    requires
        old(board).wf(),
        piece != Piece::EMPTY,
        piece == Piece::KING ==> old(board).king_sq == HOLE,
        free_list(old(board), old(empty_squares)@),
    ensures
        old(empty_squares)@.len() == 0 ==> *final(board) == *old(board) && final(empty_squares)@ == old(empty_squares)@,
        old(empty_squares)@.len() > 0 ==> exists|idx: int|
            0 <= idx < old(empty_squares)@.len() && final(empty_squares)@ == old(empty_squares)@.update(
                idx,
                old(empty_squares)@.last(),
            ).drop_last() && final(board).placed(old(board), #[trigger] old(empty_squares)@[idx] as int, piece),
        final(board).wf(),
        free_list(final(board), final(empty_squares)@),
{
    if empty_squares.len() == 0 {
        return;
    }
    let ghost e0 = empty_squares@;
    let idx = random_in_range(rnd, 0, empty_squares.len() - 1);
    let sq = empty_squares.swap_remove(idx);
    proof {
        crate::board::state::lemma_count_bound(board.board@, piece, board.sqs());
    }
    let _ = board.set_piece(sq, piece);
    proof {
        let e1 = empty_squares@;
        assert forall|k: int| 0 <= k < e1.len() implies e1[k] != sq by {
            if k == idx {
                assert(e1[k] == e0.last());
                assert(e0[e0.len() - 1] == e0.last());
            } else {
                assert(e1[k] == e0[k]);
            }
        }
        assert forall|k: int| 0 <= k < e1.len() implies #[trigger] e1[k] < board.sqs() && board.board@[e1[k] as int]
            == Piece::EMPTY && !is_corner(e1[k] as int, board.size()) by {
            if k == idx {
                assert(e1[k] == e0[e0.len() - 1]);
            } else {
                assert(e1[k] == e0[k]);
            }
        }
        assert forall|j: int, k: int| 0 <= j < k < e1.len() implies e1[j] != e1[k] by {
            let jj = if j == idx { e0.len() - 1 } else { j };
            let kk = if k == idx { e0.len() - 1 } else { k };
            assert(e1[j] == e0[jj]);
            assert(e1[k] == e0[kk]);
        }
        assert(e0[idx as int] == sq);
    }
}

/// Of the squares of the Copenhagen board, all but the four corners.
proof fn lemma_non_corner_count(board: &Board, v: Seq<Square>)
    requires
        board.wf(),
        board.rules == RulesEnum::Copenhagen11x11,
        free_list(board, v),
        forall|x: int| 0 <= x < board.sqs() && !is_corner(x, board.size()) ==> #[trigger] v.contains(x as usize),
    ensures
        v.len() == 117,
{
    let n = board.size();
    assert(n == 11);
    let free = Set::new(|x: int| 0 <= x < 121 && !is_corner(x, 11));
    let r0 = vstd::set_lib::set_int_range(0, 121);
    vstd::set_lib::lemma_int_range(0, 121);
    let r1 = r0.remove(0);
    let r2 = r1.remove(10);
    let r3 = r2.remove(110);
    let r4 = r3.remove(120);
    assert(r0.contains(0) && r1.contains(10) && r2.contains(110) && r3.contains(120));
    assert(r1.len() == 120 && r2.len() == 119 && r3.len() == 118 && r4.len() == 117);
    assert forall|x: int| free.contains(x) <==> r4.contains(x) by {
        assert(square_at(0, 0, 11) == 0 && square_at(0, 10, 11) == 10);
        assert(square_at(10, 0, 11) == 110 && square_at(10, 10, 11) == 120) by (nonlinear_arith);
        assert(is_corner(x, 11) <==> (x == 0 || x == 10 || x == 110 || x == 120));
    }
    assert(free =~= r4);
    let w = v.map_values(|x: usize| x as int);
    let img = w.to_set();
    assert forall|x: int| free.contains(x) <==> img.contains(x) by {
        if free.contains(x) {
            assert(v.contains(x as usize));
            let k = choose|k: int| 0 <= k < v.len() && v[k] == x as usize;
            assert(w[k] == x);
        }
        if img.contains(x) {
            let k = choose|k: int| 0 <= k < w.len() && #[trigger] w[k] == x;
            assert(v[k] < 121);
        }
    }
    assert(free =~= img);
    assert(w.no_duplicates()) by {
        assert forall|j: int, k: int| 0 <= j < w.len() && 0 <= k < w.len() && j != k implies w[j] != w[k] by {
            if j < k {
                assert(v[j] != v[k]);
            } else {
                assert(v[k] != v[j]);
            }
        }
    }
    w.unique_seq_to_set();
}

/// Puts `piece` on a random square of the list, which is known not to be empty.
fn place_one(board: &mut Board, empty_squares: &mut Vec<Square>, rnd: &mut StdRng, piece: Piece)
    requires
        old(board).is_empty_position_but_cells(RulesEnum::Copenhagen11x11),
        piece != Piece::EMPTY,
        piece == Piece::KING ==> old(board).king_sq == HOLE,
        free_list(old(board), old(empty_squares)@),
        old(empty_squares)@.len() > 0,
        forall|s: int|
            0 <= s < old(board).sqs() && is_corner(s, old(board).size()) ==> old(board).board@[s] == Piece::EMPTY,
    ensures
        final(board).is_empty_position_but_cells(RulesEnum::Copenhagen11x11),
        final(empty_squares)@.len() == old(empty_squares)@.len() - 1,
        free_list(final(board), final(empty_squares)@),
        forall|s: int|
            0 <= s < final(board).sqs() && is_corner(s, final(board).size()) ==> final(board).board@[s] == Piece::EMPTY,
        final(board).king_sq == (if piece == Piece::KING {
            final(board).king_sq
        } else {
            old(board).king_sq
        }),
        piece == Piece::KING ==> final(board).king_sq != HOLE,
        final(board).attackers_count == old(board).attackers_count + (if piece == Piece::ATTACKER {
            1int
        } else {
            0int
        }),
        final(board).defenders_count == old(board).defenders_count + (if piece == Piece::DEFENDER {
            1int
        } else {
            0int
        }),
{
    let ghost b0 = *board;
    let ghost e0 = empty_squares@;
    set_piece_to_random_square(board, empty_squares, rnd, piece);
    proof {
        let idx = choose|idx: int|
            0 <= idx < e0.len() && empty_squares@ == e0.update(idx, e0.last()).drop_last() && board.placed(
                &b0,
                #[trigger] e0[idx] as int,
                piece,
            );
        let sq = e0[idx] as int;
        assert(!is_corner(sq, b0.size()));
        assert forall|s: int| 0 <= s < board.sqs() && is_corner(s, board.size()) implies board.board@[s]
            == Piece::EMPTY by {
            assert(s != sq);
            assert(board.board@[s] == b0.board@[s]);
        }
    }
}

/// A random position for the Copenhagen board: a king, 24 to 50 attackers
/// and up to 12 defenders, each on a square drawn at random among those still
/// empty, never on a corner.
pub fn set_random_position(rnd: &mut StdRng) -> (board: Board)
    ensures
        board.is_empty_position_but_cells(RulesEnum::Copenhagen11x11),
        board.king_sq != HOLE,
        24 <= board.attackers_count <= 50,
        board.defenders_count <= 12,
        forall|s: int| 0 <= s < board.sqs() && is_corner(s, board.size()) ==> board.board@[s] == Piece::EMPTY,
{
    let mut board = Board::new();
    let ghost b0 = board;
    let sqs = board.board.len();
    let mut empty_squares: Vec<Square> = Vec::new();
    let mut s: usize = 0;
    while s < sqs
        invariant
            board == b0,
            b0.is_empty_position(RulesEnum::Copenhagen11x11),
            sqs == board.sqs(),
            s <= sqs,
            forall|k: int| 0 <= k < empty_squares@.len() ==> #[trigger] empty_squares@[k] < s,
            free_list(&board, empty_squares@),
            forall|x: int|
                0 <= x < s && !is_corner(x, board.size()) ==> #[trigger] empty_squares@.contains(x as usize),
        decreases sqs - s,
    {
        let c = &board.precomputed.corners_sq;
        let corner = s == c[0] || s == c[1] || s == c[2] || s == c[3];
        if !corner {
            let ghost before = empty_squares@;
            empty_squares.push(s);
            proof {
                assert(empty_squares@[before.len() as int] == s);
                assert forall|x: int| 0 <= x < s + 1 && !is_corner(x, board.size()) implies #[trigger] empty_squares@.contains(
                    x as usize,
                ) by {
                    if x < s {
                        assert(before.contains(x as usize));
                        let j = choose|j: int| 0 <= j < before.len() && before[j] == x as usize;
                        assert(empty_squares@[j] == x as usize);
                    }
                }
            }
        }
        s += 1;
    }
    proof {
        lemma_non_corner_count(&board, empty_squares@);
    }
    let attackers = random_in_range(rnd, 24, 50);
    let defenders = random_in_range(rnd, 0, 12);
    place_one(&mut board, &mut empty_squares, rnd, Piece::KING);
    let mut i: usize = 0;
    while i < attackers
        invariant
            board.is_empty_position_but_cells(RulesEnum::Copenhagen11x11),
            board.king_sq != HOLE,
            board.attackers_count == i,
            board.defenders_count == 0,
            i <= attackers <= 50,
            empty_squares@.len() == 116 - i,
            free_list(&board, empty_squares@),
            forall|s: int| 0 <= s < board.sqs() && is_corner(s, board.size()) ==> board.board@[s] == Piece::EMPTY,
        decreases attackers - i,
    {
        place_one(&mut board, &mut empty_squares, rnd, Piece::ATTACKER);
        i += 1;
    }
    let mut j: usize = 0;
    while j < defenders
        invariant
            board.is_empty_position_but_cells(RulesEnum::Copenhagen11x11),
            board.king_sq != HOLE,
            board.attackers_count == attackers,
            24 <= attackers <= 50,
            board.defenders_count == j,
            j <= defenders <= 12,
            empty_squares@.len() == 116 - attackers - j,
            free_list(&board, empty_squares@),
            forall|s: int| 0 <= s < board.sqs() && is_corner(s, board.size()) ==> board.board@[s] == Piece::EMPTY,
        decreases defenders - j,
    {
        place_one(&mut board, &mut empty_squares, rnd, Piece::DEFENDER);
        j += 1;
    }
    board
}

/// The label a game end carries in the generation log.
pub fn terminal_type_str(t: &TerminalType) -> (s: &'static str)
    ensures
        s@ == (match *t {
            TerminalType::KingCaptured => "atk_capture"@,
            TerminalType::ThreefoldRepetition => "atk_threefold"@,
            TerminalType::KingOnCorner => "def_corner"@,
            TerminalType::DefendersSurrounded => "atk_surrounded"@,
            TerminalType::FortCheck => "def_fort"@,
        }),
{
    match t {
        TerminalType::KingCaptured => "atk_capture",
        TerminalType::ThreefoldRepetition => "atk_threefold",
        TerminalType::KingOnCorner => "def_corner",
        TerminalType::DefendersSurrounded => "atk_surrounded",
        TerminalType::FortCheck => "def_fort",
    }
}

/// Every generated move slides along a line.
proof fn lemma_generated_slide(b: &Board, k: int)
    requires
        b.wf(),
        0 <= k < spec_generate_moves(b).len(),
    ensures
        is_slide(spec_generate_moves(b)[k].0, spec_generate_moves(b)[k].1, b.size()),
{
    let p = spec_generate_moves(b)[k];
    assert(spec_generate_moves(b).contains(p));
    lemma_generate_moves_legal(b, p.0, p.1);
    let n = b.size();
    crate::board::utils::lemma_square_parts(p.0, n);
    crate::board::utils::lemma_square_parts(p.1, n);
}

/// The policy slots of the first `k` moves of a list.
pub open spec fn slots_of(moves: Seq<(int, int)>, k: int, n: int, i: int) -> bool {
    exists|j: int| 0 <= j < k && i == spec_policy_index(moves[j].0, moves[j].1, n)
}

/// The legal-move mask of a position: the policy slot of every generated
/// move is marked, and no other.
pub fn legal_mask_of(board: &Board) -> (mask: LegalMask)
    requires
        board.wf(),
    ensures
        mask.wf(),
        forall|i: int|
            0 <= i < ACTIONS ==> (#[trigger] mask.marked(i) <==> slots_of(
                spec_generate_moves(board),
                spec_generate_moves(board).len() as int,
                board.size(),
                i,
            )),
{
    let n = board.board_size();
    let mut gen = MoveGen::new();
    gen.generate_moves(board);
    let count = gen.count;
    let ghost moves = spec_generate_moves(board);
    proof {
        assert(moves.len() == count);
    }
    let mut mask = LegalMask::new();
    let mut i: usize = 0;
    while i < count
        invariant
            board.wf(),
            n == board.size(),
            gen.wf(),
            count == gen.count,
            moves == spec_generate_moves(board),
            move_pairs(gen.listed()) == moves,
            i <= count,
            mask.wf(),
            forall|j: int| 0 <= j < ACTIONS ==> (#[trigger] mask.marked(j) <==> slots_of(moves, i as int, n as int, j)),
        decreases count - i,
    {
        let mv = gen.moves[i];
        proof {
            assert(gen.listed()[i as int] == mv);
            assert(move_pairs(gen.listed())[i as int] == (mv.spec_from(), mv.spec_to()));
            lemma_generated_slide(board, i as int);
            lemma_policy_round_trip(mv.spec_from(), mv.spec_to(), n as int);
            assert(n * n * 4 * (n - 1) <= 4840) by (nonlinear_arith)
                requires
                    3 <= n <= 11,
            ;
        }
        let idx = move_to_policy_index(mv, n);
        mask.set(idx as usize);
        proof {
            assert forall|j: int| 0 <= j < ACTIONS implies (#[trigger] mask.marked(j) <==> slots_of(
                moves,
                i + 1,
                n as int,
                j,
            )) by {
                if j == idx as int {
                    assert(j == spec_policy_index(moves[i as int].0, moves[i as int].1, n as int));
                } else if slots_of(moves, i + 1, n as int, j) {
                    let w = choose|w: int| 0 <= w < i + 1 && j == spec_policy_index(moves[w].0, moves[w].1, n as int);
                    assert(w < i);
                } else if slots_of(moves, i as int, n as int, j) {
                    let w = choose|w: int| 0 <= w < i && j == spec_policy_index(moves[w].0, moves[w].1, n as int);
                    assert(w < i + 1);
                }
            }
        }
        i += 1;
    }
    mask
}

/// How often the current position has been seen, counting this time: its
/// entry in the repetition table, or one where it has none.
pub open spec fn spec_rep_of(board: &Board) -> u8 {
    if board.rep_table@.contains_key(board.zobrist) {
        board.rep_table@[board.zobrist]
    } else {
        1
    }
}

/// The training sample of a searched position, given what the search found:
/// the visit counts of the searched moves and the root value. The position
/// is packed with its repetition count, every legal move is marked, the
/// value is left at zero for the game's result, and no corner is set.
pub fn search_sample(board: &Board, policy: Vec<(u16, u16)>, root_q: i8) -> (s: PendingSample)
    requires
        board.wf(),
    ensures
        s.bit_position.encodes(board.board@),
        s.bit_position.stm == spec_side_index(board.side_to_move),
        s.bit_position.rep == spec_rep_of(board),
        s.legal_mask.wf(),
        forall|i: int|
            0 <= i < ACTIONS ==> (#[trigger] s.legal_mask.marked(i) <==> slots_of(
                spec_generate_moves(board),
                spec_generate_moves(board).len() as int,
                board.size(),
                i,
            )),
        s.policy@.len() == policy@.len(),
        forall|i: int|
            0 <= i < policy@.len() ==> (#[trigger] s.policy@[i]).move_index == policy@[i].0 && s.policy@[i].visits
                == policy@[i].1,
        s.value == 0,
        s.root_q == root_q,
        s.flags == FLAG_POLICY_VALID,
        s.king_corner == KING_CORNER_NONE,
{
    let rep: u8 = match board.rep_table.get(&board.zobrist) {
        Some(count) => *count,
        None => 1,
    };
    let mask = legal_mask_of(board);
    PendingSample::from_manual(BitPosition::from_board(board, rep), mask, policy, 0, root_q)
}

/// The sample that the single-sample dump writes for `board`: every legal
/// move marked in the mask, seven visits on the first generated move, a won
/// value and a zero root value; with the slot of that move and the number of
/// legal moves. Nothing when there is no legal move.
pub fn single_sample(board: &Board) -> (r: Option<(PendingSample, u16, usize)>)
    requires
        board.wf(),
    ensures
        r is None <==> spec_generate_moves(board).len() == 0,
        r matches Some((s, idx, count)) ==> {
            let moves = spec_generate_moves(board);
            let n = board.size();
            &&& count == moves.len()
            &&& idx == spec_policy_index(moves[0].0, moves[0].1, n)
            &&& s.wf()
            &&& s.bit_position.encodes(board.board@)
            &&& s.bit_position.rep == 1
            &&& forall|i: int| 0 <= i < ACTIONS ==> (#[trigger] s.legal_mask.marked(i) <==> slots_of(moves, moves.len() as int, n, i))
            &&& s.policy@.len() == 1
            &&& s.policy@[0].move_index == idx
            &&& s.policy@[0].visits == 7
            &&& s.value == 1
            &&& s.root_q == 0
        },
{
    let n = board.board_size();
    let mut gen = MoveGen::new();
    gen.generate_moves(board);
    let count = gen.count;
    proof {
        assert(spec_generate_moves(board).len() == count);
    }
    if count == 0 {
        return None;
    }
    let mask = legal_mask_of(board);
    let first = gen.moves[0];
    proof {
        assert(gen.listed()[0] == first);
        assert(move_pairs(gen.listed())[0] == (first.spec_from(), first.spec_to()));
        lemma_generated_slide(board, 0);
    }
    let move_index = move_to_policy_index(first, n);
    let mut policy: Vec<(u16, u16)> = Vec::new();
    policy.push((move_index, 7));
    let sample = PendingSample::from_manual(BitPosition::from_board(board, 1), mask, policy, 1, 0);
    Some((sample, move_index, count))
}

} // verus!
