use vstd::prelude::*;
use vstd::string::StringSliceAdditionalSpecFns;
use crate::board::Board;
use crate::board::notation::{
    ascii_string, chars_of, is_ascii_bytes, is_digit, parse_uint, push_sq_algebraic, spec_parse_uint,
    spec_sq_algebraic,
};
use crate::board::types::{Col, Row, Square};
use crate::board::utils::square_at;
use crate::moves::mv::Move;

verus! {

/// Ranks are read as numbers up to this bound; a move's text is too short
/// to come near it.
pub const RANK_PARSE_MAX: u64 = 1_000_000;

/// The first position at or after `i` that holds no digit.
pub open spec fn digits_end(s: Seq<u8>, i: int) -> int
    decreases s.len() - i,
{
    if 0 <= i < s.len() && is_digit(s[i]) {
        digits_end(s, i + 1)
    } else {
        i
    }
}

/// The squares a move's text names on an `n`x`n` board: a file letter, the
/// from-rank's digits, a file letter and the to-rank, four to six bytes in
/// all, files within the board and ranks from 1 to `n`.
pub open spec fn spec_parse_move(s: Seq<u8>, n: int) -> Option<(int, int)> {
    let last_file = 97 + n - 1;
    if s.len() < 4 || s.len() > 6 || !(97 <= s[0] <= last_file) {
        None
    } else {
        let i = digits_end(s, 1);
        if i >= s.len() || !(97 <= s[i] <= last_file) {
            None
        } else {
            match (
                spec_parse_uint(s.subrange(1, i), RANK_PARSE_MAX as int),
                spec_parse_uint(s.subrange(i + 1, s.len() as int), RANK_PARSE_MAX as int),
            ) {
                (Some(a), Some(b)) => if 1 <= a <= n && 1 <= b <= n {
                    Some((square_at(a - 1, s[0] - 97, n), square_at(b - 1, s[i] - 97, n)))
                } else {
                    None
                },
                _ => None,
            }
        }
    }
}

/// The text of a move: the names of its two squares.
pub open spec fn spec_move_algebraic(mv: Move, n: int) -> Seq<u8> {
    spec_sq_algebraic(mv.spec_from(), n) + spec_sq_algebraic(mv.spec_to(), n)
}

/// A move in algebraic form for a board of the given size.
pub fn move_to_algebraic(mv: Move, board_size: usize) -> (s: String)
    requires
        2 <= board_size <= 26,
    ensures
        s@ == chars_of(spec_move_algebraic(mv, board_size as int)),
{
    let mut out: Vec<u8> = Vec::new();
    push_sq_algebraic(&mut out, mv.from(), board_size);
    push_sq_algebraic(&mut out, mv.to(), board_size);
    proof {
        assert(out@ =~= spec_move_algebraic(mv, board_size as int));
    }
    ascii_string(out)
}

fn digits_end_exec(b: &[u8], start: usize) -> (i: usize)
    requires
        1 <= start <= b@.len(),
    ensures
        i == digits_end(b@, start as int),
        start <= i <= b@.len(),
{
    let mut i = start;
    while i < b.len() && b[i] >= 48 && b[i] <= 57
        invariant
            start <= i <= b@.len(),
            digits_end(b@, i as int) == digits_end(b@, start as int),
        decreases b@.len() - i,
    {
        i += 1;
    }
    i
}

impl Board {
    /// This board's algebraic form of a move.
    pub fn move_to_algebraic(&self, mv: Move) -> (s: String)
        requires
            self.wf(),
        ensures
            s@ == chars_of(spec_move_algebraic(mv, self.size())),
    {
        move_to_algebraic(mv, self.board_size())
    }

    /// Reads a move such as `a10a9` on this board.
    pub fn create_move_from_algebraic(&self, s: &str) -> (r: Result<Move, String>)
        requires
            self.wf(),
        ensures
            match spec_parse_move(s.spec_bytes(), self.size()) {
                Some((f, t)) => r is Ok && r->Ok_0.spec_from() == f && r->Ok_0.spec_to() == t,
                None => r is Err,
            },
    {
        self.move_from_bytes(s.as_bytes())
    }

    /// Reads a move given as the bytes of its text.
    pub fn move_from_bytes(&self, b: &[u8]) -> (r: Result<Move, String>)
        requires
            self.wf(),
        ensures
            match spec_parse_move(b@, self.size()) {
                Some((f, t)) => r is Ok && r->Ok_0.spec_from() == f && r->Ok_0.spec_to() == t,
                None => r is Err,
            },
    {
        let n = self.board_size();
        if b.len() < 4 || b.len() > 6 {
            return Err(String::from_str("Invalid move format length"));
        }
        let last_file: u8 = 97u8 + (n - 1) as u8;
        let from_file = b[0];
        if !(97u8 <= from_file && from_file <= last_file) {
            return Err(String::from_str("Invalid from-file"));
        }
        let from_col: Col = (from_file - 97u8) as Col;
        let i = digits_end_exec(b, 1);
        if i >= b.len() {
            return Err(String::from_str("Invalid move format (missing to-file)"));
        }
        let to_file = b[i];
        if !(97u8 <= to_file && to_file <= last_file) {
            return Err(String::from_str("Invalid to-file"));
        }
        let to_col: Col = (to_file - 97u8) as Col;
        let from_rank = parse_uint(b, 1, i, RANK_PARSE_MAX);
        let to_rank = parse_uint(b, i + 1, b.len(), RANK_PARSE_MAX);
        let (fr, tr) = match (from_rank, to_rank) {
            (Some(fr), Some(tr)) => (fr, tr),
            (None, _) => {
                return Err(String::from_str("Invalid from-rank"));
            },
            (_, None) => {
                return Err(String::from_str("Invalid to-rank"));
            },
        };
        if !(1 <= fr && fr <= n as u64) || !(1 <= tr && tr <= n as u64) {
            return Err(String::from_str("Rank out of range"));
        }
        let from_row: Row = (fr - 1) as Row;
        let to_row: Row = (tr - 1) as Row;
        proof {
            crate::board::utils::lemma_square_compose(from_row as int, from_col as int, n as int);
            crate::board::utils::lemma_square_compose(to_row as int, to_col as int, n as int);
            crate::board::utils::lemma_small_board(n as int);
        }
        let from_sq: Square = from_row * n + from_col;
        let to_sq: Square = to_row * n + to_col;
        proof {
            let sb = b@;
            assert(digits_end(sb, 1) == i);
            assert(spec_parse_uint(sb.subrange(1, i as int), RANK_PARSE_MAX as int) == Some(fr as int));
            assert(spec_parse_uint(sb.subrange(i + 1, sb.len() as int), RANK_PARSE_MAX as int) == Some(tr as int));
            assert(spec_parse_move(sb, n as int) == Some((from_sq as int, to_sq as int)));
        }
        Ok(Move::new(from_sq, to_sq))
    }
}

} // verus!
