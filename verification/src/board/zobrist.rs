use vstd::prelude::*;
use rand::rngs::StdRng;
use rand::{RngExt, SeedableRng};
use crate::board::types::{spec_piece_index, Piece, ZobristHash};

verus! {

#[verifier::external_type_specification]
#[verifier::external_body]
pub struct ExStdRng(StdRng);

/// Calls `StdRng::seed_from_u64` (rand). The generator's state is opaque;
/// nothing is claimed about it, not even that equal seeds give equal streams
/// on every platform (rand documents `StdRng` as non-portable).
#[verifier::external_body]
fn seeded_rng(seed: u64) -> StdRng {
    StdRng::seed_from_u64(seed)
}

/// Calls `RngExt::random::<u64>` (rand) on the generator. Any `u64` may come
/// back, so no clause is stated about the result.
#[verifier::external_body]
fn next_random_u64(rng: &mut StdRng) -> u64 {
    rng.random::<u64>()
}

/// Calls `RngExt::random_range` (rand) with the inclusive range `low..=high`.
/// rand documents a uniform draw from the range and a panic on an empty
/// range, so `low <= high` is required and the result is stated to lie in
/// the range; which value comes depends on the generator's state and is not
/// stated.
#[verifier::external_body]
pub(crate) fn random_in_range(rng: &mut StdRng, low: usize, high: usize) -> (r: usize)
    requires
        low <= high,
    ensures
        low <= r <= high,
{
    rng.random_range(low..=high)
}

pub const PIECES_COUNT: usize = 4;

/// Random keys whose XOR over the occupied squares (and the side to move)
/// hashes a position.
pub struct ZobristData {
    pub table: Vec<Vec<ZobristHash>>,
    pub side: ZobristHash,
}

impl ZobristData {
    /// One key per piece kind and square of an `n`x`n` board.
    pub open spec fn wf(&self, n: int) -> bool {
        &&& self.table@.len() == PIECES_COUNT
        &&& forall|p: int| 0 <= p < PIECES_COUNT ==> (#[trigger] self.table@[p])@.len() == n * n
    }

    pub open spec fn key(&self, p: Piece, sq: int) -> u64 {
        self.table@[spec_piece_index(p)]@[sq]
    }

    pub fn new(board_size: usize) -> (z: Self)
        requires
            0 < board_size <= 16,
        ensures
            z.wf(board_size as int),
    {
        let mut rng = seeded_rng(12345);
        proof {
            crate::board::utils::lemma_small_board(board_size as int);
        }
        let sqs = board_size * board_size;

        let mut table: Vec<Vec<ZobristHash>> = Vec::new();
        let mut p: usize = 0;
        while p < PIECES_COUNT
            invariant
                sqs == board_size * board_size,
                p <= PIECES_COUNT,
                table@.len() == p,
                forall|q: int| 0 <= q < p ==> (#[trigger] table@[q])@.len() == sqs,
            decreases PIECES_COUNT - p,
        {
            let mut keys: Vec<ZobristHash> = Vec::new();
            let mut sq: usize = 0;
            while sq < sqs
                invariant
                    sq <= sqs,
                    keys@.len() == sq,
                decreases sqs - sq,
            {
                keys.push(next_random_u64(&mut rng));
                sq += 1;
            }
            table.push(keys);
            p += 1;
        }

        let side = next_random_u64(&mut rng);

        ZobristData { table, side }
    }
}

} // verus!
