use vstd::prelude::*;

verus! {

pub type Square = usize;

pub type Row = usize;

pub type Col = usize;

/// A square index, or `HOLE` (-1) when there is none.
pub type OptionalSquare = isize;

pub type ZobristHash = u64;

#[allow(non_camel_case_types)]
#[derive(Clone, Copy, Debug, PartialEq, Eq, Structural)]
pub enum Piece {
    EMPTY,
    ATTACKER,
    DEFENDER,
    KING,
}

#[allow(non_camel_case_types)]
#[derive(Clone, Copy, Debug, PartialEq, Eq, Structural)]
pub enum Side {
    ATTACKERS,
    DEFENDERS,
}

/// Index of a piece kind in per-piece tables (the zobrist table among them).
pub open spec fn spec_piece_index(p: Piece) -> int {
    match p {
        Piece::EMPTY => 0,
        Piece::ATTACKER => 1,
        Piece::DEFENDER => 2,
        Piece::KING => 3,
    }
}

pub fn piece_index(p: Piece) -> (r: usize)
    ensures
        r == spec_piece_index(p),
        r < 4,
{
    match p {
        Piece::EMPTY => 0,
        Piece::ATTACKER => 1,
        Piece::DEFENDER => 2,
        Piece::KING => 3,
    }
}

pub open spec fn spec_opposite(side: Side) -> Side {
    match side {
        Side::ATTACKERS => Side::DEFENDERS,
        Side::DEFENDERS => Side::ATTACKERS,
    }
}

/// Index of a side in per-side tables, and its byte in exported positions.
pub open spec fn spec_side_index(side: Side) -> int {
    match side {
        Side::ATTACKERS => 0,
        Side::DEFENDERS => 1,
    }
}

impl Side {
    pub fn opposite(side: Side) -> (r: Side)
        ensures
            r == spec_opposite(side),
    {
        match side {
            Side::ATTACKERS => Side::DEFENDERS,
            Side::DEFENDERS => Side::ATTACKERS,
        }
    }

    pub fn index(self) -> (r: usize)
        ensures
            r == spec_side_index(self),
            r < 2,
    {
        match self {
            Side::ATTACKERS => 0,
            Side::DEFENDERS => 1,
        }
    }
}

/// The side a piece fights for; an empty square has none.
pub open spec fn spec_side_of(p: Piece) -> Option<Side> {
    match p {
        Piece::ATTACKER => Some(Side::ATTACKERS),
        Piece::DEFENDER => Some(Side::DEFENDERS),
        Piece::KING => Some(Side::DEFENDERS),
        Piece::EMPTY => None,
    }
}

/// Whether `p` is one of `side`'s pieces (the king fights with the defenders).
pub open spec fn belongs_to(p: Piece, side: Side) -> bool {
    spec_side_of(p) == Some(side)
}

} // verus!
