use vstd::prelude::*;
use crate::board::Board;
use crate::board::constants::HOLE;
use crate::board::precompute::spec_sandwiches;
use crate::board::rules::{spec_has_shield_walls, RulesEnum};
use crate::board::state::count_piece;
use crate::board::types::{belongs_to, spec_opposite, Piece, Side};
use crate::moves::capture::spec_sandwiched;
use crate::moves::make_move::{
    king_after, king_phase, lemma_sandwiches_on_board, make_move_post, move_applicable, moved_cells,
    rep_add, rep_remove, sandwich_fold, spec_make_move,
};
use crate::moves::mv::Move;
use crate::moves::removal::{captured_at, lemma_removes_compose, lemma_removes_none, lemma_shield_walls, removes};
use crate::moves::shield::spec_shield_walls;
use crate::moves::undo::{CapturedPiece, UndoMove};
use crate::moves::unmake::{
    has_empty_record, lemma_restore_len, lemma_restore_named, lemma_restore_untouched, undo_applicable, unmade_cells, unmake_post,
};

verus! {

/// What `make_move` leaves that taking the move back relies on: the board
/// after the move and the record of it.
pub open spec fn made(old: &Board, mv: Move, new: &Board, undo: &UndoMove) -> bool {
    let (cells, caps) = spec_make_move(old, mv.spec_from(), mv.spec_to());
    &&& new.wf()
    &&& new.board@ == cells
    &&& undo.wf()
    &&& undo.captures() == caps
    &&& undo.mv == mv
    &&& undo.last_move_to == old.last_move_to
    &&& !undo.was_capture
    &&& new.side_to_move == spec_opposite(old.side_to_move)
    &&& new.rules == old.rules
    &&& new.halfmove_clock == old.halfmove_clock
    &&& new.halfmove_count == old.halfmove_count
    &&& new.zobrist_data == old.zobrist_data
    &&& new.precomputed == old.precomputed
}

/// Taking one piece off.
proof fn lemma_removes_single(c: Seq<Piece>, s: int)
    requires
        0 <= s < c.len(),
        c.len() <= 256,
        c[s] != Piece::EMPTY,
    ensures
        removes(c, c.update(s, Piece::EMPTY), seq![CapturedPiece { square: s as usize, piece: c[s] }]),
{
    let cp = CapturedPiece { square: s as usize, piece: c[s] };
    let c2 = c.update(s, Piece::EMPTY);
    assert forall|t: int| 0 <= t < c.len() && !captured_at(seq![cp], t) implies #[trigger] c2[t] == c[t] by {
        if t == s {
            assert(seq![cp][0].square == t);
        }
    }
}

/// Sandwiches take distinct pieces, never a king and never the arriving piece.
proof fn lemma_sandwich_fold_removes(cells: Seq<Piece>, rules: RulesEnum, n: int, to: int, sw: Seq<(int, int)>)
    requires
        cells.len() <= 256,
        forall|k: int| 0 <= k < sw.len() ==> 0 <= #[trigger] sw[k].0 < cells.len() && sw[k].0 != to,
    ensures
        removes(cells, sandwich_fold(cells, rules, n, to, sw).0, sandwich_fold(cells, rules, n, to, sw).1),
        forall|i: int|
            0 <= i < sandwich_fold(cells, rules, n, to, sw).1.len() ==> {
                let cp = #[trigger] sandwich_fold(cells, rules, n, to, sw).1[i];
                &&& cp.piece != Piece::KING
                &&& cp.square != to
            },
    decreases sw.len(),
{
    if sw.len() > 0 {
        let init = sw.drop_last();
        assert forall|k: int| 0 <= k < init.len() implies 0 <= #[trigger] init[k].0 < cells.len() && init[k].0
            != to by {
            assert(init[k] == sw[k]);
        }
        lemma_sandwich_fold_removes(cells, rules, n, to, init);
        let (c, caps) = sandwich_fold(cells, rules, n, to, init);
        let (between, captor) = sw.last();
        assert(sw[sw.len() - 1].0 == between);
        if spec_sandwiched(c, rules, n, between, to, captor) {
            let cp = CapturedPiece { square: between as usize, piece: c[between] };
            lemma_removes_single(c, between);
            lemma_removes_compose(cells, c, caps, c.update(between, Piece::EMPTY), seq![cp]);
            assert(caps.push(cp) =~= caps + seq![cp]);
        }
    } else {
        lemma_removes_none(cells);
    }
}

/// Boards in order whose squares agree agree on the king and the counts.
pub proof fn lemma_wf_same_cells(a: &Board, b: &Board)
    requires
        a.wf(),
        b.wf(),
        a.rules == b.rules,
        a.board@ == b.board@,
    ensures
        a.king_sq == b.king_sq,
        a.attackers_count == b.attackers_count,
        a.defenders_count == b.defenders_count,
{
    if a.king_sq != HOLE {
        assert(b.board@[a.king_sq as int] == Piece::KING);
    } else if b.king_sq != HOLE {
        assert(a.board@[b.king_sq as int] == Piece::KING);
    }
}

/// The squares and captures of a legal move, phase by phase: every capture
/// takes a distinct piece that stood on the board after the move, never the
/// moved piece; at most one capture is a king, and then no king is left.
proof fn lemma_make_move_removes(b: &Board, from: int, to: int)
    requires
        b.wf(),
        0 <= from < b.sqs(),
        0 <= to < b.sqs(),
        b.board@[from] != Piece::EMPTY,
        from == to || b.board@[to] == Piece::EMPTY,
        belongs_to(b.board@[from], b.side_to_move),
    ensures
        removes(moved_cells(b.board@, from, to), spec_make_move(b, from, to).0, spec_make_move(b, from, to).1),
        forall|i: int|
            0 <= i < spec_make_move(b, from, to).1.len() ==> (#[trigger] spec_make_move(b, from, to).1[i]).square
                != to,
        forall|j: int, k: int|
            0 <= j < k < spec_make_move(b, from, to).1.len() ==> !(spec_make_move(b, from, to).1[j].piece == Piece::KING
                && spec_make_move(b, from, to).1[k].piece == Piece::KING),
        (exists|k: int|
            0 <= k < spec_make_move(b, from, to).1.len() && (#[trigger] spec_make_move(b, from, to).1[k]).piece
                == Piece::KING) ==> forall|s: int|
            0 <= s < b.sqs() ==> #[trigger] spec_make_move(b, from, to).0[s] != Piece::KING,
{
    let n = b.size();
    let rules = b.rules;
    let side = b.side_to_move;
    let c0 = b.board@;
    let c1 = moved_cells(c0, from, to);
    crate::board::utils::lemma_small_board(n);
    lemma_sandwiches_on_board(to, n);
    let sw = spec_sandwiches(to, n);
    lemma_sandwich_fold_removes(c1, rules, n, to, sw);
    let (c2, k1) = sandwich_fold(c1, rules, n, to, sw);
    assert(!captured_at(k1, to)) by {
        if captured_at(k1, to) {
            let i = choose|i: int| 0 <= i < k1.len() && #[trigger] k1[i].square == to;
        }
    }
    assert(c2[to] == c1[to]);
    let (c3, k2) = if spec_has_shield_walls(rules) {
        spec_shield_walls(c2, n, side, to, to)
    } else {
        (c2, Seq::<CapturedPiece>::empty())
    };
    if spec_has_shield_walls(rules) {
        lemma_shield_walls(c2, n, side, to, to);
    } else {
        lemma_removes_none(c2);
    }
    assert forall|i: int| 0 <= i < k2.len() implies (#[trigger] k2[i]).square != to && k2[i].piece != Piece::KING by {
        if k2[i].square == to {
            assert(c2[to] == k2[i].piece);
        }
    }
    lemma_removes_compose(c1, c2, k1, c3, k2);
    let k12 = k1 + k2;
    assert forall|i: int| 0 <= i < k12.len() implies (#[trigger] k12[i]).square != to && k12[i].piece != Piece::KING by {
        if i < k1.len() {
            assert(k12[i] == k1[i]);
        } else {
            assert(k12[i] == k2[i - k1.len()]);
        }
    }
    // There is at most one king once the piece has moved.
    assert forall|s1: int, s2: int|
        0 <= s1 < c1.len() && 0 <= s2 < c1.len() && c1[s1] == Piece::KING && c1[s2] == Piece::KING implies s1 == s2 by {
        if s1 != to {
            assert(c0[s1] == Piece::KING);
        }
        if s2 != to {
            assert(c0[s2] == Piece::KING);
        }
        if c0[from] == Piece::KING {
            assert(b.king_sq == from);
        }
    }
    let king = king_after(b, from, to);
    let (c4, k3) = king_phase(c3, rules, n, side, king, to);
    if king != -1 && side == Side::ATTACKERS && crate::board::utils::spec_vh_neighbors(king, n).contains(to)
        && crate::moves::capture::spec_king_surrounded(c3, rules, n, king) {
        // The king stands where it stood after the move: no phase takes a king.
        assert(c1[king] == Piece::KING) by {
            if c0[from] != Piece::KING {
                assert(c0[b.king_sq as int] == Piece::KING);
            }
        }
        assert(!captured_at(k12, king)) by {
            if captured_at(k12, king) {
                let i = choose|i: int| 0 <= i < k12.len() && #[trigger] k12[i].square == king;
                assert(c1[k12[i].square as int] == k12[i].piece);
            }
        }
        assert(c3[king] == Piece::KING);
        assert(king != to) by {
            assert(c1[to] == c0[from]);
        }
        lemma_removes_single(c3, king);
        lemma_removes_compose(c1, c3, k12, c4, k3);
        let all = k12 + k3;
        assert forall|i: int| 0 <= i < all.len() implies (#[trigger] all[i]).square != to by {
            if i < k12.len() {
                assert(all[i] == k12[i]);
            } else {
                assert(all[i] == k3[0]);
            }
        }
        assert forall|j: int, k: int|
            0 <= j < k < all.len() implies !(all[j].piece == Piece::KING && all[k].piece == Piece::KING) by {
            if k < k12.len() {
                assert(all[k] == k12[k]);
            } else {
                assert(all[j] == k12[j]);
            }
        }
        assert forall|s: int| 0 <= s < b.sqs() implies #[trigger] c4[s] != Piece::KING by {
            if s != king {
                if !captured_at(all, s) {
                    assert(c4[s] == c1[s]);
                }
            }
        }
    } else {
        assert(k3 =~= Seq::<CapturedPiece>::empty());
        assert(c4 == c3);
        assert(k12 + k3 =~= k12);
        assert forall|k: int| 0 <= k < k12.len() implies (#[trigger] k12[k]).piece != Piece::KING by {}
    }
}

/// After a legal move, `unmake_move` accepts the record `make_move` wrote:
/// every capture goes back to a free square and none of them is empty.
pub proof fn lemma_make_move_record_applies(b: &Board, mv: Move, after: &Board, undo: &UndoMove)
    requires
        move_applicable(b, mv),
        belongs_to(b.board@[mv.spec_from()], b.side_to_move),
        made(b, mv, after, undo),
    ensures
        undo_applicable(after, undo),
        !has_empty_record(undo.captures()),
{
    let from = mv.spec_from();
    let to = mv.spec_to();
    let c0 = b.board@;
    let c1 = moved_cells(c0, from, to);
    lemma_make_move_removes(b, from, to);
    let (c4, caps) = spec_make_move(b, from, to);
    assert(after.sqs() == b.sqs());
    assert(!captured_at(caps, to)) by {
        if captured_at(caps, to) {
            let i = choose|i: int| 0 <= i < caps.len() && #[trigger] caps[i].square == to;
        }
    }
    assert(!captured_at(caps, from)) by {
        if captured_at(caps, from) {
            let i = choose|i: int| 0 <= i < caps.len() && #[trigger] caps[i].square == from;
            assert(c1[caps[i].square as int] == caps[i].piece);
        }
    }
    assert forall|k: int| 0 <= k < caps.len() implies {
        let cp = #[trigger] caps[k];
        &&& cp.square < after.sqs()
        &&& cp.square != from
        &&& cp.square != to
        &&& after.board@[cp.square as int] == Piece::EMPTY
        &&& (cp.piece == Piece::KING ==> after.king_sq == HOLE)
    } by {
        let cp = caps[k];
        assert(c1[cp.square as int] == cp.piece);
        if cp.piece == Piece::KING {
            if after.king_sq != HOLE {
                assert(after.board@[after.king_sq as int] == Piece::KING);
            }
        }
    }
    assert(!has_empty_record(caps));
}

/// Putting the moved piece back and the removed pieces back gives the
/// squares the move started from.
proof fn lemma_unmade_from_removes(c0: Seq<Piece>, from: int, to: int, c4: Seq<Piece>, caps: Seq<CapturedPiece>)
    requires
        c0.len() <= 256,
        0 <= from < c0.len(),
        0 <= to < c0.len(),
        c0[from] != Piece::EMPTY,
        from == to || c0[to] == Piece::EMPTY,
        removes(moved_cells(c0, from, to), c4, caps),
        forall|i: int| 0 <= i < caps.len() ==> (#[trigger] caps[i]).square != to,
    ensures
        unmade_cells(c4, from, to, caps) == c0,
{
    let c1 = moved_cells(c0, from, to);
    let mb = c4.update(to, Piece::EMPTY).update(from, c4[to]);
    assert(!captured_at(caps, to)) by {
        if captured_at(caps, to) {
            let i = choose|i: int| 0 <= i < caps.len() && #[trigger] caps[i].square == to;
        }
    }
    assert(c4[to] == c0[from]);
    assert forall|k: int| 0 <= k < caps.len() implies 0 <= #[trigger] caps[k].square < mb.len() by {}
    let cells = unmade_cells(c4, from, to, caps);
    assert forall|s: int| 0 <= s < c0.len() implies #[trigger] cells[s] == c0[s] by {
        if captured_at(caps, s) {
            let k = choose|k: int| 0 <= k < caps.len() && #[trigger] caps[k].square == s;
            lemma_restore_named(mb, caps, k);
            assert(cells[caps[k].square as int] == caps[k].piece);
            assert(c1[caps[k].square as int] == caps[k].piece);
        } else {
            assert forall|k: int| 0 <= k < caps.len() implies (#[trigger] caps[k]).square != s by {}
            lemma_restore_untouched(mb, caps, s);
        }
    }
    assert forall|k: int| 0 <= k < caps.len() implies (#[trigger] caps[k]).square != from || from == to by {
        assert(c1[caps[k].square as int] == caps[k].piece);
    }
    lemma_restore_len(mb, caps);
    assert(cells =~= c0);
}

/// Taking back a legal move restores the position it was played from: the
/// squares, the side to move, the king, the piece counts, the hash and the
/// last destination. (The capture flag comes back cleared: the record never
/// stores it.)
pub proof fn lemma_unmake_restores_position(b: &Board, mv: Move, after: &Board, undo: &UndoMove, back: &Board)
    requires
        move_applicable(b, mv),
        belongs_to(b.board@[mv.spec_from()], b.side_to_move),
        made(b, mv, after, undo),
        unmake_post(after, undo, back),
    ensures
        back.board@ == b.board@,
        back.side_to_move == b.side_to_move,
        back.king_sq == b.king_sq,
        back.attackers_count == b.attackers_count,
        back.defenders_count == b.defenders_count,
        back.zobrist == b.zobrist,
        back.last_move_to == b.last_move_to,
        back.rules == b.rules,
        back.halfmove_clock == b.halfmove_clock,
        back.halfmove_count == b.halfmove_count,
        back.zobrist_data == b.zobrist_data,
        back.precomputed == b.precomputed,
        !back.was_capture,
{
    let from = mv.spec_from();
    let to = mv.spec_to();
    lemma_make_move_record_applies(b, mv, after, undo);
    lemma_make_move_removes(b, from, to);
    crate::board::utils::lemma_small_board(b.size());
    lemma_unmade_from_removes(b.board@, from, to, spec_make_move(b, from, to).0, spec_make_move(b, from, to).1);
    lemma_wf_same_cells(back, b);
}

/// Taking back a legal move also restores the repetition table, as long as
/// the count it held for the position reached was at least one and below its
/// ceiling.
pub proof fn lemma_unmake_undoes_make(b: &Board, mv: Move, after: &Board, undo: &UndoMove, back: &Board)
    requires
        move_applicable(b, mv),
        belongs_to(b.board@[mv.spec_from()], b.side_to_move),
        make_move_post(b, mv, after, undo),
        b.rep_table@.contains_key(after.zobrist) ==> 1 <= b.rep_table@[after.zobrist] < 255,
        unmake_post(after, undo, back),
    ensures
        back.board@ == b.board@,
        back.side_to_move == b.side_to_move,
        back.king_sq == b.king_sq,
        back.attackers_count == b.attackers_count,
        back.defenders_count == b.defenders_count,
        back.zobrist == b.zobrist,
        back.rep_table@ == b.rep_table@,
        back.last_move_to == b.last_move_to,
        back.rules == b.rules,
        !back.was_capture,
{
    lemma_unmake_restores_position(b, mv, after, undo, back);
    assert(rep_remove(rep_add(b.rep_table@, after.zobrist), after.zobrist) =~= b.rep_table@);
}

/// Making a move counts the position it leads to once more in the
/// repetition table: its count goes up by one (to one when it was not there;
/// the count stops at 255), and every other position keeps its count.
pub proof fn lemma_make_move_counts_position(b: &Board, mv: Move, after: &Board, undo: &UndoMove)
    requires
        make_move_post(b, mv, after, undo),
    ensures
        after.rep_table@.contains_key(after.zobrist),
        !b.rep_table@.contains_key(after.zobrist) ==> after.rep_table@[after.zobrist] == 1,
        b.rep_table@.contains_key(after.zobrist) && b.rep_table@[after.zobrist] < 255 ==> after.rep_table@[after.zobrist]
            == b.rep_table@[after.zobrist] + 1,
        b.rep_table@.contains_key(after.zobrist) && b.rep_table@[after.zobrist] == 255 ==> after.rep_table@[after.zobrist]
            == 255,
        forall|z: u64|
            z != after.zobrist ==> (#[trigger] after.rep_table@.contains_key(z) == b.rep_table@.contains_key(z) && (
            b.rep_table@.contains_key(z) ==> after.rep_table@[z] == b.rep_table@[z])),
{
}

/// Taking a move back takes one visit of the position it had led to off the
/// repetition table: a count above one goes down by one, a count of one
/// leaves the table, and every other position keeps its count.
pub proof fn lemma_unmake_uncounts_position(after: &Board, undo: &UndoMove, back: &Board)
    requires
        unmake_post(after, undo, back),
    ensures
        after.rep_table@.contains_key(after.zobrist) && after.rep_table@[after.zobrist] > 1 ==> back.rep_table@.contains_key(
            after.zobrist,
        ) && back.rep_table@[after.zobrist] == after.rep_table@[after.zobrist] - 1,
        after.rep_table@.contains_key(after.zobrist) && after.rep_table@[after.zobrist] <= 1 ==> !back.rep_table@.contains_key(
            after.zobrist,
        ),
        !after.rep_table@.contains_key(after.zobrist) ==> back.rep_table@ == after.rep_table@,
        forall|z: u64|
            z != after.zobrist ==> (#[trigger] back.rep_table@.contains_key(z) == after.rep_table@.contains_key(z) && (
            after.rep_table@.contains_key(z) ==> back.rep_table@[z] == after.rep_table@[z])),
{
}

} // verus!
