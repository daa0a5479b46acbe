use vstd::prelude::*;

verus! {

/// Side length of the largest supported board.
pub const BOARD_SIZE: usize = 11;

/// Number of squares on the largest supported board.
pub const SQS: usize = 121;

/// The "no square" value of an optional square.
pub const HOLE: isize = -1;

/// Capacity of the attackers list.
pub const ATTACKERS_MAX: usize = 121;

/// Capacity of the defenders list.
pub const DEFENDERS_MAX: usize = 121;

/// The Copenhagen starting position in the short FEN layout.
pub const INITIAL_FEN: &'static str = "3aaaaa3/5a5/11/a4d4a/a3ddd3a/aa1ddkdd1aa/a3ddd3a/a4d4a/11/5a5/3aaaaa3 a";

} // verus!
