use vstd::prelude::*;
use crate::board::types::Square;

verus! {

/// A move packed into 32 bits: the origin square in the high half, the
/// destination in the low half. The all-zero move is the null move.
#[derive(Clone, Copy, Debug, PartialEq, Eq, Structural)]
pub struct Move(u32);

pub open spec fn spec_pack(from: int, to: int) -> u32 {
    (((from as u32) << 16u32) | (to as u32)) as u32
}

impl Move {
    pub closed spec fn spec_raw(&self) -> u32 {
        self.0
    }

    pub open spec fn spec_from(&self) -> int {
        ((self.spec_raw() >> 16u32) & 0xFFFFu32) as int
    }

    pub open spec fn spec_to(&self) -> int {
        (self.spec_raw() & 0xFFFFu32) as int
    }

    pub fn new(from: Square, to: Square) -> (m: Self)
        ensures
            m.spec_raw() == spec_pack(from as int, to as int),
            from < 65536 && to < 65536 ==> m.spec_from() == from && m.spec_to() == to,
    {
        let m = Move(((from as u32) << 16) | (to as u32));
        proof {
            lemma_pack_unpack(from as int, to as int);
        }
        m
    }

    pub fn from(&self) -> (sq: Square)
        ensures
            sq == self.spec_from(),
    {
        let r = (self.0 >> 16) & 0xFFFF;
        r as Square
    }

    pub fn to(&self) -> (sq: Square)
        ensures
            sq == self.spec_to(),
    {
        let r = self.0 & 0xFFFF;
        r as Square
    }

    pub fn raw(&self) -> (r: u32)
        ensures
            r == self.spec_raw(),
    {
        self.0
    }

    pub fn is_null(&self) -> (b: bool)
        ensures
            b == (self.spec_raw() == 0),
    {
        self.0 == 0
    }

    pub fn create_null() -> (m: Self)
        ensures
            m.spec_raw() == 0,
    {
        Move(0)
    }

    pub fn from_u32(mv_u32: u32) -> (m: Self)
        ensures
            m.spec_raw() == mv_u32,
    {
        Move(mv_u32)
    }

    /// Moves are equal exactly when their raw values are.
    pub proof fn lemma_raw_eq(a: Move, b: Move)
        ensures
            (a == b) <==> (a.spec_raw() == b.spec_raw()),
    {
    }
}

impl Default for Move {
    fn default() -> (m: Self)
        ensures
            m.spec_raw() == 0,
    {
        Move(0)
    }
}

pub proof fn lemma_pack_unpack(from: int, to: int)
    ensures
        0 <= from < 65536 && 0 <= to < 65536 ==> {
            &&& (((spec_pack(from, to) >> 16u32) & 0xFFFFu32) as int) == from
            &&& ((spec_pack(from, to) & 0xFFFFu32) as int) == to
        },
{
    if 0 <= from < 65536 && 0 <= to < 65536 {
        let f = from as u32;
        let t = to as u32;
        assert((((f << 16u32) | t) >> 16u32) & 0xFFFFu32 == f) by (bit_vector)
            requires
                f < 65536,
                t < 65536,
        ;
        assert(((f << 16u32) | t) & 0xFFFFu32 == t) by (bit_vector)
            requires
                f < 65536,
                t < 65536,
        ;
    }
}

/// A move is determined by its two squares.
pub proof fn lemma_move_eq(a: Move, b: Move)
    requires
        a.spec_from() == b.spec_from(),
        a.spec_to() == b.spec_to(),
    ensures
        a == b,
{
    let x = a.spec_raw();
    let y = b.spec_raw();
    assert(x == y) by (bit_vector)
        requires
            (x >> 16u32) & 0xFFFFu32 == (y >> 16u32) & 0xFFFFu32,
            x & 0xFFFFu32 == y & 0xFFFFu32,
    ;
    Move::lemma_raw_eq(a, b);
}

} // verus!
