use vstd::prelude::*;

verus! {

/// Bit `i` of a 16-bit occupancy or move mask.
pub open spec fn bit16(x: u16, i: int) -> bool {
    0 <= i < 16 && (x >> (i as u16)) & 1u16 == 1u16
}

/// Bit `i` of a byte.
pub open spec fn bit8(x: u8, i: int) -> bool {
    0 <= i < 8 && (x >> (i as u8)) & 1u8 == 1u8
}

pub proof fn lemma_bit16_or_single(x: u16, i: u16, j: u16)
    requires
        i < 16,
        j < 16,
    ensures
        bit16(x | (1u16 << i), j as int) == (bit16(x, j as int) || i == j),
{
    assert(((x | (1u16 << i)) >> j) & 1u16 == 1u16 <==> (((x >> j) & 1u16 == 1u16) || i == j))
        by (bit_vector)
        requires
            i < 16,
            j < 16,
    ;
}

pub proof fn lemma_bit16_clear_single(x: u16, i: u16, j: u16)
    requires
        i < 16,
        j < 16,
    ensures
        bit16(x & !(1u16 << i), j as int) == (bit16(x, j as int) && i != j),
{
    assert(((x & !(1u16 << i)) >> j) & 1u16 == 1u16 <==> (((x >> j) & 1u16 == 1u16) && i != j))
        by (bit_vector)
        requires
            i < 16,
            j < 16,
    ;
}

pub proof fn lemma_bit16_and_single(x: u16, i: u16)
    requires
        i < 16,
    ensures
        (x & (1u16 << i) != 0u16) == bit16(x, i as int),
{
    assert((x & (1u16 << i) != 0u16) <==> ((x >> i) & 1u16 == 1u16)) by (bit_vector)
        requires
            i < 16,
    ;
}

pub proof fn lemma_bit16_zero(j: int)
    ensures
        !bit16(0u16, j),
{
    if 0 <= j < 16 {
        let jj = j as u16;
        assert((0u16 >> jj) & 1u16 == 0u16) by (bit_vector);
    }
}

/// A mask is determined by its bits.
pub proof fn lemma_bit16_ext(x: u16, y: u16)
    requires
        forall|i: int| 0 <= i < 16 ==> bit16(x, i) == bit16(y, i),
    ensures
        x == y,
{
    assert forall|i: u16| i < 16 implies ((x >> i) & 1u16) == ((y >> i) & 1u16) by {
        assert(bit16(x, i as int) == bit16(y, i as int));
        assert((x >> i) & 1u16 == 1u16 || (x >> i) & 1u16 == 0u16) by (bit_vector);
        assert((y >> i) & 1u16 == 1u16 || (y >> i) & 1u16 == 0u16) by (bit_vector);
    }
    assert((x >> 0u16) & 1u16 == (y >> 0u16) & 1u16);
    assert((x >> 1u16) & 1u16 == (y >> 1u16) & 1u16);
    assert((x >> 2u16) & 1u16 == (y >> 2u16) & 1u16);
    assert((x >> 3u16) & 1u16 == (y >> 3u16) & 1u16);
    assert((x >> 4u16) & 1u16 == (y >> 4u16) & 1u16);
    assert((x >> 5u16) & 1u16 == (y >> 5u16) & 1u16);
    assert((x >> 6u16) & 1u16 == (y >> 6u16) & 1u16);
    assert((x >> 7u16) & 1u16 == (y >> 7u16) & 1u16);
    assert((x >> 8u16) & 1u16 == (y >> 8u16) & 1u16);
    assert((x >> 9u16) & 1u16 == (y >> 9u16) & 1u16);
    assert((x >> 10u16) & 1u16 == (y >> 10u16) & 1u16);
    assert((x >> 11u16) & 1u16 == (y >> 11u16) & 1u16);
    assert((x >> 12u16) & 1u16 == (y >> 12u16) & 1u16);
    assert((x >> 13u16) & 1u16 == (y >> 13u16) & 1u16);
    assert((x >> 14u16) & 1u16 == (y >> 14u16) & 1u16);
    assert((x >> 15u16) & 1u16 == (y >> 15u16) & 1u16);
    assert(x == y) by (bit_vector)
        requires
            (x >> 0u16) & 1u16 == (y >> 0u16) & 1u16,
            (x >> 1u16) & 1u16 == (y >> 1u16) & 1u16,
            (x >> 2u16) & 1u16 == (y >> 2u16) & 1u16,
            (x >> 3u16) & 1u16 == (y >> 3u16) & 1u16,
            (x >> 4u16) & 1u16 == (y >> 4u16) & 1u16,
            (x >> 5u16) & 1u16 == (y >> 5u16) & 1u16,
            (x >> 6u16) & 1u16 == (y >> 6u16) & 1u16,
            (x >> 7u16) & 1u16 == (y >> 7u16) & 1u16,
            (x >> 8u16) & 1u16 == (y >> 8u16) & 1u16,
            (x >> 9u16) & 1u16 == (y >> 9u16) & 1u16,
            (x >> 10u16) & 1u16 == (y >> 10u16) & 1u16,
            (x >> 11u16) & 1u16 == (y >> 11u16) & 1u16,
            (x >> 12u16) & 1u16 == (y >> 12u16) & 1u16,
            (x >> 13u16) & 1u16 == (y >> 13u16) & 1u16,
            (x >> 14u16) & 1u16 == (y >> 14u16) & 1u16,
            (x >> 15u16) & 1u16 == (y >> 15u16) & 1u16,
    ;
}

/// Masks whose bits from `n` up are all clear.
pub open spec fn fits16(x: u16, n: int) -> bool {
    forall|i: int| n <= i < 16 ==> !bit16(x, i)
}

pub proof fn lemma_bit8_or_single(x: u8, i: u8, j: u8)
    requires
        i < 8,
        j < 8,
    ensures
        bit8(x | (1u8 << i), j as int) == (bit8(x, j as int) || i == j),
{
    assert(((x | (1u8 << i)) >> j) & 1u8 == 1u8 <==> (((x >> j) & 1u8 == 1u8) || i == j))
        by (bit_vector)
        requires
            i < 8,
            j < 8,
    ;
}

pub proof fn lemma_bit8_zero(j: int)
    ensures
        !bit8(0u8, j),
{
    if 0 <= j < 8 {
        let jj = j as u8;
        assert((0u8 >> jj) & 1u8 == 0u8) by (bit_vector);
    }
}

} // verus!
