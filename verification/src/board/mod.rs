pub mod constants;
pub mod types;
pub mod utils;
pub mod rules;
pub mod masks;
pub mod precompute;
pub mod zobrist;
pub mod state;
pub mod pieces;
pub mod notation;
pub mod fen;
pub mod fen_laws;
pub mod picture;
pub mod position_export;

use vstd::prelude::*;
use std::collections::HashMap;
use crate::board::constants::{ATTACKERS_MAX, DEFENDERS_MAX, HOLE};
use crate::board::precompute::Precomputed;
use crate::board::rules::{spec_board_size, spec_rules_match, Rules, RulesEnum};
use crate::board::state::{
    col_occ_ok, count_piece, lemma_count_all_empty, list_ok, lemma_occ_empty, lemma_occ_update, lemma_xor_self_inverse, lemma_zobrist_fold_empty,
    lemma_zobrist_fold_update, row_occ_ok, zobrist_fold, zobrist_term,
};
use crate::board::types::{piece_index, OptionalSquare, Piece, Side, Square, ZobristHash};
use crate::board::utils::{col_of, lemma_small_board, lemma_square_parts, row_of, valid_board_size};
use crate::board::zobrist::ZobristData;

verus! {

broadcast use vstd::std_specs::hash::group_hash_axioms;

/// A position together with the bookkeeping that keeps move generation fast:
/// piece lists, occupancy masks, a zobrist hash and the repetition table.
pub struct Board {
    pub board: Vec<Piece>,
    pub attackers: Vec<Square>,
    pub defenders: Vec<Square>,
    pub piece_index_by_square: Vec<u8>,
    pub king_sq: OptionalSquare,
    pub attackers_count: u8,
    pub defenders_count: u8,
    pub row_occ: Vec<u16>,
    pub col_occ: Vec<u16>,
    pub side_to_move: Side,
    pub zobrist: ZobristHash,
    pub rep_table: HashMap<ZobristHash, u8>,
    pub last_move_to: OptionalSquare,
    pub was_capture: bool,
    pub halfmove_clock: u32,
    pub halfmove_count: u32,
    pub rules: RulesEnum,
    pub precomputed: Precomputed,
    pub zobrist_data: ZobristData,
}

/// The hash of a position.
pub open spec fn spec_zobrist(z: ZobristData, cells: Seq<Piece>, side: Side) -> u64 {
    zobrist_fold(z, cells, cells.len() as int) ^ (if side == Side::DEFENDERS {
        z.side
    } else {
        0u64
    })
}

impl Board {
    pub open spec fn size(&self) -> int {
        spec_board_size(self.rules) as int
    }

    pub open spec fn sqs(&self) -> int {
        self.size() * self.size()
    }

    pub open spec fn cell(&self, sq: int) -> Piece {
        self.board@[sq]
    }

    /// Each attacker is listed once, at the index its square records.
    pub open spec fn attackers_ok(&self) -> bool {
        list_ok(
            self.board@,
            self.attackers@,
            self.piece_index_by_square@,
            self.attackers_count as int,
            Piece::ATTACKER,
            self.sqs(),
        )
    }

    /// Each defender is listed once, at the index its square records.
    pub open spec fn defenders_ok(&self) -> bool {
        list_ok(
            self.board@,
            self.defenders@,
            self.piece_index_by_square@,
            self.defenders_count as int,
            Piece::DEFENDER,
            self.sqs(),
        )
    }

    /// `king_sq` is the square of the only king, or `HOLE` when there is none.
    pub open spec fn king_ok(&self) -> bool {
        &&& self.king_sq == HOLE || (0 <= self.king_sq < self.sqs() && self.board@[self.king_sq as int]
            == Piece::KING)
        &&& forall|sq: int|
            0 <= sq < self.sqs() && #[trigger] self.board@[sq] == Piece::KING ==> self.king_sq == sq
    }

    /// The board is internally consistent.
    pub open spec fn wf(&self) -> bool {
        let n = self.size();
        let sqs = self.sqs();
        &&& valid_board_size(n)
        &&& self.precomputed.wf(n)
        &&& self.zobrist_data.wf(n)
        &&& self.board@.len() == sqs
        &&& self.attackers@.len() == sqs
        &&& self.defenders@.len() == sqs
        &&& self.piece_index_by_square@.len() == sqs
        &&& self.attackers_ok()
        &&& self.defenders_ok()
        &&& self.attackers_count == count_piece(self.board@, Piece::ATTACKER, sqs)
        &&& self.defenders_count == count_piece(self.board@, Piece::DEFENDER, sqs)
        &&& self.king_ok()
        &&& row_occ_ok(self.row_occ@, self.board@, n)
        &&& col_occ_ok(self.col_occ@, self.board@, n)
        &&& (self.last_move_to == HOLE || 0 <= self.last_move_to < sqs)
        &&& self.zobrist == spec_zobrist(self.zobrist_data, self.board@, self.side_to_move)
    }

    /// Everything but the squares is as in `other`.
    pub open spec fn same_except_cells(&self, other: &Board) -> bool {
        &&& self.side_to_move == other.side_to_move
        &&& self.rep_table@ == other.rep_table@
        &&& self.last_move_to == other.last_move_to
        &&& self.was_capture == other.was_capture
        &&& self.halfmove_clock == other.halfmove_clock
        &&& self.halfmove_count == other.halfmove_count
        &&& self.rules == other.rules
        &&& self.zobrist_data == other.zobrist_data
        &&& self.precomputed == other.precomputed
    }

    /// An empty board of the given variant, attackers to move.
    pub open spec fn is_empty_position(&self, rules: RulesEnum) -> bool {
        &&& self.wf()
        &&& self.rules == rules
        &&& forall|i: int| 0 <= i < self.sqs() ==> #[trigger] self.board@[i] == Piece::EMPTY
        &&& self.attackers_count == 0
        &&& self.defenders_count == 0
        &&& self.king_sq == HOLE
        &&& self.side_to_move == Side::ATTACKERS
        &&& self.rep_table@ == Map::<u64, u8>::empty()
        &&& self.last_move_to == HOLE
        &&& !self.was_capture
        &&& self.halfmove_clock == 0
        &&& self.halfmove_count == 0
    }

    pub fn new() -> (b: Self)
        ensures
            b.is_empty_position(RulesEnum::Copenhagen11x11),
    {
        Self::from_rules(RulesEnum::Copenhagen11x11)
    }

    pub fn from_rules(rules: RulesEnum) -> (b: Self)
        ensures
            b.is_empty_position(rules),
    {
        let board_size = rules.board_size();
        proof {
            lemma_small_board(board_size as int);
        }
        let sqs = board_size * board_size;

        let mut board: Vec<Piece> = Vec::new();
        let mut attackers: Vec<Square> = Vec::new();
        let mut defenders: Vec<Square> = Vec::new();
        let mut piece_index_by_square: Vec<u8> = Vec::new();
        let mut i: usize = 0;
        while i < sqs
            invariant
                i <= sqs,
                board@.len() == i,
                attackers@.len() == i,
                defenders@.len() == i,
                piece_index_by_square@.len() == i,
                forall|k: int| 0 <= k < i ==> #[trigger] board@[k] == Piece::EMPTY,
            decreases sqs - i,
        {
            board.push(Piece::EMPTY);
            attackers.push(0);
            defenders.push(0);
            piece_index_by_square.push(0);
            i += 1;
        }
        let mut row_occ: Vec<u16> = Vec::new();
        let mut col_occ: Vec<u16> = Vec::new();
        let mut j: usize = 0;
        while j < board_size
            invariant
                j <= board_size,
                row_occ@.len() == j,
                col_occ@.len() == j,
                forall|k: int| 0 <= k < j ==> #[trigger] row_occ@[k] == 0u16,
                forall|k: int| 0 <= k < j ==> #[trigger] col_occ@[k] == 0u16,
            decreases board_size - j,
        {
            row_occ.push(0);
            col_occ.push(0);
            j += 1;
        }
        let zobrist_data = ZobristData::new(board_size);
        proof {
            lemma_occ_empty(row_occ@, board@, board_size as int);
            lemma_occ_empty(col_occ@, board@, board_size as int);
            lemma_zobrist_fold_empty(zobrist_data, board@, board@.len() as int);
            lemma_count_all_empty(board@, Piece::ATTACKER, sqs as int);
            lemma_count_all_empty(board@, Piece::DEFENDER, sqs as int);
            lemma_xor_self_inverse(0u64, 0u64);
        }

        Board {
            board,
            attackers,
            defenders,
            king_sq: HOLE,
            attackers_count: 0,
            defenders_count: 0,
            row_occ,
            col_occ,
            piece_index_by_square,
            side_to_move: Side::ATTACKERS,
            zobrist: 0,
            rep_table: HashMap::new(),
            last_move_to: HOLE,
            was_capture: false,
            halfmove_clock: 0,
            halfmove_count: 0,
            rules,
            precomputed: Precomputed::new(board_size),
            zobrist_data,
        }
    }

    pub fn precomputed(&self) -> (p: &Precomputed)
        ensures
            p == &self.precomputed,
    {
        &self.precomputed
    }

    pub fn get_rules(&self) -> (r: Rules)
        ensures
            spec_rules_match(r, self.rules),
    {
        self.rules.rules()
    }

    /// Switches to another variant; the board is left empty.
    pub fn set_rules(&mut self, rules: RulesEnum)
        ensures
            final(self).is_empty_position(rules),
    {
        let brd = Board::from_rules(rules);
        *self = brd;
    }

    /// Empties the board, keeping the variant and the hash keys.
    pub fn clear(&mut self)
        requires
            old(self).wf(),
        ensures
            final(self).is_empty_position(old(self).rules),
            final(self).zobrist_data == old(self).zobrist_data,
    {
        let mut brd = Board::from_rules(self.rules);
        proof {
            lemma_zobrist_fold_empty(brd.zobrist_data, brd.board@, brd.board@.len() as int);
            lemma_zobrist_fold_empty(self.zobrist_data, brd.board@, brd.board@.len() as int);
            lemma_xor_self_inverse(0u64, 0u64);
        }
        std::mem::swap(&mut brd.zobrist_data, &mut self.zobrist_data);
        *self = brd;
    }

    fn set_side_to_move(&mut self, side: Side)
        ensures
            *final(self) == (Board { side_to_move: side, ..*old(self) }),
    {
        self.side_to_move = side;
    }

    pub fn board_size(&self) -> (n: usize)
        ensures
            n == self.size(),
    {
        self.rules.board_size()
    }

    /// The pieces, square by square.
    pub fn board(&self) -> (b: &Vec<Piece>)
        ensures
            b@ == self.board@,
    {
        &self.board
    }
}

impl Default for Board {
    fn default() -> (b: Self)
        ensures
            b.is_empty_position(RulesEnum::Copenhagen11x11),
    {
        Board::new()
    }
}

} // verus!
