use vstd::prelude::*;
use crate::utils::bits::{bit16, lemma_bit16_and_single, lemma_bit16_or_single, lemma_bit16_zero};

verus! {

pub type Mask = u16;

/// Whether a piece on `pos` of a line whose occupied cells are the set bits of
/// `occ` can slide to `i`: every cell from `pos` (exclusive) to `i` (inclusive)
/// is free.
pub open spec fn slide_reaches(occ: u16, pos: int, i: int, n: int) -> bool {
    &&& 0 <= i < n
    &&& i != pos
    &&& forall|j: int|
        (pos < j <= i || i <= j < pos) ==> !#[trigger] bit16(occ, j)
}

/// `m` is the mask of all cells a piece on `pos` can slide to.
pub open spec fn line_mask_ok(m: u16, pos: int, occ: u16, n: int) -> bool {
    forall|i: int| 0 <= i < 16 ==> (#[trigger] bit16(m, i) <==> slide_reaches(occ, pos, i, n))
}

fn build_line_mask(pos: usize, occ: Mask, board_size: usize) -> (mask: Mask)
    requires
        pos < board_size <= 16,
    ensures
        line_mask_ok(mask, pos as int, occ, board_size as int),
{
    let mut mask: Mask = 0;
    proof {
        assert forall|j: int| 0 <= j < 16 implies !bit16(mask, j) by {
            lemma_bit16_zero(j);
        }
    }
    // Towards lower cells.
    let mut i: usize = pos;
    let mut blocked = false;
    while i > 0 && !blocked
        invariant
            i <= pos < board_size <= 16,
            forall|j: int| 0 <= j < 16 ==> (#[trigger] bit16(mask, j) <==> (i <= j < pos)),
            forall|j: int| i <= j < pos ==> !#[trigger] bit16(occ, j),
            blocked ==> i > 0 && bit16(occ, i - 1),
        decreases i, if blocked { 0int } else { 1int },
    {
        let b: u16 = 1u16 << ((i - 1) as u16);
        proof {
            lemma_bit16_and_single(occ, (i - 1) as u16);
        }
        if (occ & b) != 0 {
            blocked = true;
        } else {
            let ghost old_mask = mask;
            mask = mask | b;
            proof {
                assert forall|j: int| 0 <= j < 16 implies (#[trigger] bit16(mask, j) <==> (i - 1
                    <= j < pos)) by {
                    lemma_bit16_or_single(old_mask, (i - 1) as u16, j as u16);
                }
            }
            i = i - 1;
        }
    }
    let lo = i;
    // Towards higher cells.
    let mut k: usize = pos + 1;
    let mut blocked2 = false;
    while k < board_size && !blocked2
        invariant
            lo <= pos < board_size <= 16,
            pos < k <= board_size,
            lo > 0 ==> bit16(occ, lo - 1),
            forall|j: int| lo <= j < pos ==> !#[trigger] bit16(occ, j),
            forall|j: int| 0 <= j < 16 ==> (#[trigger] bit16(mask, j) <==> (lo <= j < pos || pos
                < j < k)),
            forall|j: int| pos < j < k ==> !#[trigger] bit16(occ, j),
            blocked2 ==> k < board_size && bit16(occ, k as int),
        decreases board_size - k, if blocked2 { 0int } else { 1int },
    {
        let b: u16 = 1u16 << (k as u16);
        proof {
            lemma_bit16_and_single(occ, k as u16);
        }
        if (occ & b) != 0 {
            blocked2 = true;
        } else {
            let ghost old_mask = mask;
            mask = mask | b;
            proof {
                assert forall|j: int| 0 <= j < 16 implies (#[trigger] bit16(mask, j) <==> (lo <= j
                    < pos || pos < j < k + 1)) by {
                    lemma_bit16_or_single(old_mask, k as u16, j as u16);
                }
            }
            k = k + 1;
        }
    }
    proof {
        assert forall|j: int| 0 <= j < 16 implies (#[trigger] bit16(mask, j) <==> slide_reaches(
            occ,
            pos as int,
            j,
            board_size as int,
        )) by {
            if bit16(mask, j) {
                assert forall|t: int|
                    (pos < t <= j || j <= t < pos) implies !#[trigger] bit16(occ, t) by {}
            }
            if slide_reaches(occ, pos as int, j, board_size as int) {
                if j < pos && j < lo {
                    assert(j <= lo - 1 < pos);
                    assert(!bit16(occ, lo - 1));
                }
                if j > pos && j >= k {
                    assert(pos < k <= j);
                    assert(!bit16(occ, k as int));
                }
            }
        }
    }
    mask
}

pub open spec fn line_table_ok(t: Seq<Vec<Mask>>, n: int) -> bool {
    &&& t.len() == n
    &&& forall|pos: int|
        0 <= pos < n ==> (#[trigger] t[pos])@.len() == pow2_16(n) && forall|occ: int|
            0 <= occ < pow2_16(n) ==> line_mask_ok(#[trigger] t[pos]@[occ], pos, occ as u16, n)
}

/// 2^n for the board sizes that fit a 16-bit line.
pub open spec fn pow2_16(n: int) -> int
    decreases n,
{
    if n <= 0 {
        1
    } else {
        2 * pow2_16(n - 1)
    }
}

proof fn lemma_pow2_16_mono(a: int, b: int)
    requires
        0 <= a <= b,
    ensures
        1 <= pow2_16(a) <= pow2_16(b),
    decreases b,
{
    if b > a {
        lemma_pow2_16_mono(a, b - 1);
    } else if a > 0 {
        lemma_pow2_16_mono(a - 1, a - 1);
    }
}

pub proof fn lemma_pow2_16_bound(n: int)
    requires
        0 <= n <= 16,
    ensures
        1 <= pow2_16(n) <= 65536,
{
    lemma_pow2_16_mono(n, 16);
    reveal_with_fuel(pow2_16, 17);
    assert(pow2_16(16) == 65536);
}

proof fn lemma_shl_is_pow2(n: usize)
    requires
        n <= 16,
    ensures
        (1usize << n) as int == pow2_16(n as int),
    decreases n,
{
    if n == 0 {
        assert(1usize << 0usize == 1usize) by (bit_vector);
    } else {
        lemma_shl_is_pow2((n - 1) as usize);
        let m = (n - 1) as usize;
        assert(1usize << n == 2 * (1usize << m)) by (bit_vector)
            requires
                n == m + 1,
                m < 16,
        ;
    }
}

proof fn lemma_shl32_is_pow2(n: u16)
    requires
        n <= 16,
    ensures
        (1u32 << n) as int == pow2_16(n as int),
    decreases n,
{
    if n == 0 {
        assert(1u32 << 0u16 == 1u32) by (bit_vector);
    } else {
        let m = (n - 1) as u16;
        lemma_shl32_is_pow2(m);
        assert(1u32 << n == 2 * (1u32 << m)) by (bit_vector)
            requires
                n == m + 1,
                m < 16,
        ;
    }
}

/// A mask with no bit at `n` or above is below 2^n.
pub proof fn lemma_fits16_bound(x: u16, n: int)
    requires
        0 <= n <= 16,
        crate::utils::bits::fits16(x, n),
    ensures
        (x as int) < pow2_16(n),
    decreases 16 - n,
{
    if n == 16 {
        lemma_pow2_16_bound(16);
        reveal_with_fuel(pow2_16, 17);
    } else {
        lemma_fits16_bound(x, n + 1);
        let nn = n as u16;
        lemma_shl32_is_pow2(nn);
        lemma_shl32_is_pow2((nn + 1) as u16);
        assert(!crate::utils::bits::bit16(x, n));
        let xx = x as u32;
        assert(xx < (1u32 << ((nn + 1) as u16)) && (x >> nn) & 1u16 != 1u16 ==> xx < (1u32 << nn)) by (bit_vector)
            requires
                nn < 16,
                xx == x as u32,
        ;
    }
}

/// For each position on a line and each occupancy of the line, the mask of the
/// cells a piece on that position can slide to.
pub fn create_line_moves(board_size: usize) -> (t: Vec<Vec<Mask>>)
    requires
        0 < board_size <= 16,
    ensures
        line_table_ok(t@, board_size as int),
{
    proof {
        lemma_shl_is_pow2(board_size);
        lemma_pow2_16_bound(board_size as int);
    }
    let occ_states: usize = 1usize << board_size;
    let mut table: Vec<Vec<Mask>> = Vec::new();
    let mut pos: usize = 0;
    while pos < board_size
        invariant
            0 < board_size <= 16,
            occ_states as int == pow2_16(board_size as int),
            occ_states <= 65536,
            pos <= board_size,
            table@.len() == pos,
            forall|p: int|
                0 <= p < pos ==> (#[trigger] table@[p])@.len() == occ_states && forall|occ: int|
                    0 <= occ < occ_states ==> line_mask_ok(
                        #[trigger] table@[p]@[occ],
                        p,
                        occ as u16,
                        board_size as int,
                    ),
        decreases board_size - pos,
    {
        let mut row: Vec<Mask> = Vec::new();
        let mut occ: usize = 0;
        while occ < occ_states
            invariant
                pos < board_size <= 16,
                occ_states <= 65536,
                occ <= occ_states,
                row@.len() == occ,
                forall|o: int|
                    0 <= o < occ ==> line_mask_ok(
                        #[trigger] row@[o],
                        pos as int,
                        o as u16,
                        board_size as int,
                    ),
            decreases occ_states - occ,
        {
            row.push(build_line_mask(pos, occ as Mask, board_size));
            occ += 1;
        }
        table.push(row);
        pos += 1;
    }
    table
}

/// Number of set bits of a mask.
pub open spec fn count_bits16(x: u16, k: int) -> int
    decreases k,
{
    if k <= 0 {
        0
    } else {
        count_bits16(x, k - 1) + if bit16(x, k - 1) { 1int } else { 0int }
    }
}

/// Number of set bits among the lowest `n` bits of `x`.
pub fn count_ones(x: Mask, n: usize) -> (c: usize)
    requires
        n <= 16,
    ensures
        c == count_bits16(x, n as int),
        c <= n,
{
    let mut c: usize = 0;
    let mut i: usize = 0;
    while i < n
        invariant
            i <= n <= 16,
            c == count_bits16(x, i as int),
            c <= i,
        decreases n - i,
    {
        proof {
            lemma_bit16_and_single(x, i as u16);
        }
        if x & (1u16 << (i as u16)) != 0 {
            c += 1;
        }
        i += 1;
    }
    c
}

/// The two directions along a line, towards higher (`Up`) and lower (`Down`) cells.
#[derive(Clone, Copy, PartialEq, Eq, Debug, Structural)]
pub enum Direction {
    Up,
    Down,
}

/// The nearest occupied cell from `pos` in `dir`, if any.
pub open spec fn spec_nearest_occupied(occ: u16, pos: int, dir: Direction, n: int) -> Option<int> {
    if exists|i: int| nearest_candidate(occ, pos, dir, n, i) {
        Some(choose|i: int| nearest_candidate(occ, pos, dir, n, i))
    } else {
        None
    }
}

pub open spec fn nearest_candidate(occ: u16, pos: int, dir: Direction, n: int, i: int) -> bool {
    &&& 0 <= i < n
    &&& bit16(occ, i)
    &&& match dir {
        Direction::Up => pos < i && forall|j: int| pos < j < i ==> !#[trigger] bit16(occ, j),
        Direction::Down => i < pos && forall|j: int| i < j < pos ==> !#[trigger] bit16(occ, j),
    }
}

/// The nearest occupied cell from `pos` in direction `dir`, or -1 when the
/// line is free to its end.
pub fn build_line_mask_dir(occ: Mask, pos: usize, dir: Direction, board_size: usize) -> (r: i8)
    requires
        pos < board_size <= 16,
    ensures
        r == -1 ==> forall|i: int| !nearest_candidate(occ, pos as int, dir, board_size as int, i),
        r != -1 ==> nearest_candidate(occ, pos as int, dir, board_size as int, r as int),
{
    match dir {
        Direction::Up => {
            let mut i: usize = pos + 1;
            while i < board_size
                invariant
                    pos < i <= board_size <= 16,
                    dir == Direction::Up,
                    forall|j: int| pos < j < i ==> !#[trigger] bit16(occ, j),
                decreases board_size - i,
            {
                proof {
                    lemma_bit16_and_single(occ, i as u16);
                }
                if occ & (1u16 << (i as u16)) != 0 {
                    assert(bit16(occ, i as int));
                    assert(dir == Direction::Up);
                    assert(nearest_candidate(occ, pos as int, dir, board_size as int, i as int));
                    return i as i8;
                }
                i += 1;
            }
            proof {
                assert forall|t: int| !nearest_candidate(occ, pos as int, dir, board_size as int, t) by {
                    if nearest_candidate(occ, pos as int, dir, board_size as int, t) {
                        assert(pos < t < board_size);
                        assert(!bit16(occ, t));
                    }
                }
            }
            -1
        },
        Direction::Down => {
            let mut i: usize = pos;
            while i > 0
                invariant
                    i <= pos < board_size <= 16,
                    dir == Direction::Down,
                    forall|j: int| i <= j < pos ==> !#[trigger] bit16(occ, j),
                decreases i,
            {
                proof {
                    lemma_bit16_and_single(occ, (i - 1) as u16);
                }
                if occ & (1u16 << ((i - 1) as u16)) != 0 {
                    assert(bit16(occ, i - 1));
                    assert(dir == Direction::Down);
                    assert(forall|j: int| i - 1 < j < pos ==> !#[trigger] bit16(occ, j));
                    assert(nearest_candidate(occ, pos as int, dir, board_size as int, i - 1));
                    return (i - 1) as i8;
                }
                i -= 1;
            }
            proof {
                assert forall|t: int| !nearest_candidate(occ, pos as int, dir, board_size as int, t) by {
                    if nearest_candidate(occ, pos as int, dir, board_size as int, t) {
                        assert(0 <= t < pos);
                        assert(!bit16(occ, t));
                    }
                }
            }
            -1
        },
    }
}

} // verus!
