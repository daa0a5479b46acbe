use vstd::prelude::*;
use crate::board::constants::HOLE;
use crate::board::types::{OptionalSquare, Piece, Square};
use crate::moves::mv::Move;

verus! {

/// How many captures one move can record: four sandwiches, two shield walls
/// of at most nine pieces each, and the king.
pub const MAX_CAPTURED_PIECES: u8 = 32;

/// A piece taken off the board, and where it stood.
#[derive(Clone, Copy, Debug, PartialEq, Eq, Structural)]
pub struct CapturedPiece {
    pub square: Square,
    pub piece: Piece,
}

/// What `Board::unmake_move` needs to take a move back.
pub struct UndoMove {
    pub captured_pieces_count: u8,
    pub moved_piece: Piece,
    pub _captured_pieces: Vec<CapturedPiece>,
    pub mv: Move,
    pub last_move_to: OptionalSquare,
    pub was_capture: bool,
}

impl UndoMove {
    /// The recorded captures are exactly the first `captured_pieces_count` entries.
    pub open spec fn wf(&self) -> bool {
        &&& self._captured_pieces@.len() == self.captured_pieces_count
        &&& self.captured_pieces_count <= MAX_CAPTURED_PIECES
    }

    pub open spec fn captures(&self) -> Seq<CapturedPiece> {
        self._captured_pieces@
    }

    pub fn new() -> (u: Self)
        ensures
            u.wf(),
            u.captures() == Seq::<CapturedPiece>::empty(),
            u.mv.spec_raw() == 0,
            u.last_move_to == HOLE,
            u.moved_piece == Piece::EMPTY,
            !u.was_capture,
    {
        Self {
            captured_pieces_count: 0,
            _captured_pieces: Vec::new(),
            mv: Move::create_null(),
            last_move_to: HOLE,
            moved_piece: Piece::EMPTY,
            was_capture: false,
        }
    }

    pub fn clear_captured_pieces(&mut self)
        ensures
            final(self).wf(),
            final(self).captures() == Seq::<CapturedPiece>::empty(),
            final(self).mv == old(self).mv,
            final(self).moved_piece == old(self).moved_piece,
            final(self).last_move_to == old(self).last_move_to,
            final(self).was_capture == old(self).was_capture,
    {
        self.captured_pieces_count = 0;
        self._captured_pieces.clear();
    }

    pub fn captured_pieces(&self) -> (s: &[CapturedPiece])
        requires
            self.wf(),
        ensures
            s@ == self.captures(),
    {
        self._captured_pieces.as_slice()
    }

    /// Records one more capture; the record holds at most `MAX_CAPTURED_PIECES`.
    pub fn add_captured_piece(&mut self, sq: CapturedPiece)
        requires
            old(self).wf(),
            old(self).captured_pieces_count < MAX_CAPTURED_PIECES,
        ensures
            final(self).wf(),
            final(self).captures() == old(self).captures().push(sq),
            final(self).mv == old(self).mv,
            final(self).moved_piece == old(self).moved_piece,
            final(self).last_move_to == old(self).last_move_to,
            final(self).was_capture == old(self).was_capture,
    {
        self._captured_pieces.push(sq);
        self.captured_pieces_count += 1;
    }
}

} // verus!
