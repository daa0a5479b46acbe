use vstd::prelude::*;
use vstd::string::StringSliceAdditionalSpecFns;
use crate::board::Board;
use crate::board::constants::HOLE;
use crate::board::notation::{
    ascii_string, chars_of, dec_digits, is_ascii_bytes, is_digit, lemma_dec_digits_ascii, parse_uint, push_decimal,
    push_sq_algebraic, spec_parse_uint, spec_sq_algebraic,
};
use crate::board::rules::spec_initial_fen;
use crate::board::types::{OptionalSquare, Piece, Side};
use crate::board::utils::{col_of, row_of, square_at};

verus! {

/// Why a FEN string was refused.
#[derive(Debug, Clone, Copy, PartialEq, Eq, Structural)]
pub enum FenError {
    MissingSide,
    InvalidRowsCount(usize, usize),
    InvalidChar(char),
    RowTooWide { row: usize, got: usize, should: usize },
    UnknownSide(char),
    InvalidSetPiece,
    InvalidLastTo,
    InvalidCounter,
    InvalidFieldCount(usize),
}

/// Digit runs in a row are read up to this value; anything larger is already
/// far too wide for a board.
pub const FEN_NUMBER_CAP: usize = 1000;

pub open spec fn cap(x: int) -> int {
    if x > FEN_NUMBER_CAP as int {
        FEN_NUMBER_CAP as int
    } else {
        x
    }
}

pub open spec fn spec_char_to_piece(c: u8) -> Option<Piece> {
    if c == 107u8 {
        Some(Piece::KING)
    } else if c == 97u8 {
        Some(Piece::ATTACKER)
    } else if c == 100u8 {
        Some(Piece::DEFENDER)
    } else {
        None
    }
}

pub open spec fn spec_piece_to_char(p: Piece) -> u8 {
    match p {
        Piece::KING => 107u8,
        Piece::ATTACKER => 97u8,
        Piece::DEFENDER => 100u8,
        Piece::EMPTY => 46u8,
    }
}

pub open spec fn spec_side_from_char(c: u8) -> Option<Side> {
    if c == 97u8 {
        Some(Side::ATTACKERS)
    } else if c == 100u8 {
        Some(Side::DEFENDERS)
    } else {
        None
    }
}

pub open spec fn spec_side_to_char(s: Side) -> u8 {
    match s {
        Side::ATTACKERS => 97u8,
        Side::DEFENDERS => 100u8,
    }
}

pub open spec fn is_ws(b: u8) -> bool {
    b == 32u8 || (9u8 <= b <= 13u8)
}

// ---------------------------------------------------------------------------
// Splitting.
// ---------------------------------------------------------------------------

/// `s` cut at every `sep`: one more piece than there are separators.
pub open spec fn segments(s: Seq<u8>, sep: u8) -> Seq<Seq<u8>>
    decreases s.len(),
{
    if s.len() == 0 {
        seq![Seq::<u8>::empty()]
    } else {
        let init = segments(s.drop_last(), sep);
        if s.last() == sep {
            init.push(Seq::empty())
        } else {
            init.update(init.len() - 1, init.last().push(s.last()))
        }
    }
}

/// The maximal runs of `s` without whitespace.
pub open spec fn tokens(s: Seq<u8>) -> Seq<Seq<u8>>
    decreases s.len(),
{
    if s.len() == 0 {
        Seq::empty()
    } else {
        let init = tokens(s.drop_last());
        let c = s.last();
        if is_ws(c) {
            init
        } else if s.len() >= 2 && !is_ws(s[s.len() - 2]) {
            init.update(init.len() - 1, init.last().push(c))
        } else {
            init.push(seq![c])
        }
    }
}

/// The first space at or after `i`.
pub open spec fn first_space(s: Seq<u8>, i: int) -> Option<int>
    decreases s.len() - i,
{
    if i < 0 || i >= s.len() {
        None
    } else if s[i] == 32u8 {
        Some(i)
    } else {
        first_space(s, i + 1)
    }
}

// ---------------------------------------------------------------------------
// Reading the rows: a scan over each row's bytes keeping the next column,
// the pending digit run, the squares so far and whether a king was placed.
// ---------------------------------------------------------------------------

pub open spec fn row_step(
    st: (int, int, Seq<Piece>, bool),
    c: u8,
    n: int,
    row_idx: int,
) -> Result<(int, int, Seq<Piece>, bool), FenError> {
    let (col, num, cells, king) = st;
    if is_digit(c) {
        Ok((col, cap(num * 10 + (c - 48)), cells, king))
    } else {
        let col2 = if num > 0 {
            cap(col + num)
        } else {
            col
        };
        match spec_char_to_piece(c) {
            Some(p) => if col2 >= n {
                Err(FenError::RowTooWide { row: row_idx as usize, got: (col2 + 1) as usize, should: n as usize })
            } else if p == Piece::KING && king {
                Err(FenError::InvalidSetPiece)
            } else {
                Ok((col2 + 1, 0, cells.update(square_at(row_idx, col2, n), p), king || p == Piece::KING))
            },
            None => Err(FenError::InvalidChar(c as char)),
        }
    }
}

pub open spec fn row_scan(
    row: Seq<u8>,
    n: int,
    row_idx: int,
    cells: Seq<Piece>,
    king: bool,
) -> Result<(int, int, Seq<Piece>, bool), FenError>
    decreases row.len(),
{
    if row.len() == 0 {
        Ok((0, 0, cells, king))
    } else {
        match row_scan(row.drop_last(), n, row_idx, cells, king) {
            Ok(st) => row_step(st, row.last(), n, row_idx),
            Err(e) => Err(e),
        }
    }
}

/// A whole row: the scan, then the trailing digit run, which must not
/// overflow the board.
pub open spec fn row_result(
    row: Seq<u8>,
    n: int,
    row_idx: int,
    cells: Seq<Piece>,
    king: bool,
) -> Result<(Seq<Piece>, bool), FenError> {
    match row_scan(row, n, row_idx, cells, king) {
        Ok((col, num, c, k)) => {
            let col2 = if num > 0 {
                cap(col + num)
            } else {
                col
            };
            if col2 > n {
                Err(FenError::RowTooWide { row: row_idx as usize, got: col2 as usize, should: n as usize })
            } else {
                Ok((c, k))
            }
        },
        Err(e) => Err(e),
    }
}

pub open spec fn empty_cells(m: int) -> Seq<Piece> {
    Seq::new(m as nat, |i: int| Piece::EMPTY)
}

/// The first `k` rows, from the top rank down.
pub open spec fn rows_upto(rows: Seq<Seq<u8>>, n: int, k: int) -> Result<(Seq<Piece>, bool), FenError>
    decreases k,
{
    if k <= 0 {
        Ok((empty_cells(n * n), false))
    } else {
        match rows_upto(rows, n, k - 1) {
            Ok((c, kg)) => row_result(rows[k - 1], n, n - k, c, kg),
            Err(e) => Err(e),
        }
    }
}

/// The last-move square: `-` for none, else a square of the board.
pub open spec fn spec_last_to(t: Seq<u8>, n: int) -> Option<int> {
    if t == seq![45u8] {
        Some(-1)
    } else if t.len() >= 2 && 97 <= t[0] < 97 + n {
        match spec_parse_uint(t.drop_first(), n) {
            Some(r) => if r >= 1 {
                Some(square_at(r - 1, t[0] - 97, n))
            } else {
                None
            },
            None => None,
        }
    } else {
        None
    }
}

/// The fields after the rows: the side alone, or the last-move square, the
/// side and the two move counters.
pub open spec fn tail_result(toks: Seq<Seq<u8>>, n: int) -> Result<(int, Side, u32, u32), FenError> {
    if toks.len() == 0 {
        Err(FenError::MissingSide)
    } else if toks.len() == 1 {
        match spec_side_from_char(toks[0][0]) {
            Some(s) => Ok((-1, s, 0, 0)),
            None => Err(FenError::UnknownSide(toks[0][0] as char)),
        }
    } else if toks.len() == 4 {
        match spec_last_to(toks[0], n) {
            None => Err(FenError::InvalidLastTo),
            Some(l) => match spec_side_from_char(toks[1][0]) {
                None => Err(FenError::UnknownSide(toks[1][0] as char)),
                Some(s) => match (spec_parse_uint(toks[2], 0xFFFF_FFFF), spec_parse_uint(toks[3], 0xFFFF_FFFF)) {
                    (Some(a), Some(b)) => Ok((l, s, a as u32, b as u32)),
                    _ => Err(FenError::InvalidCounter),
                },
            },
        }
    } else {
        Err(FenError::InvalidFieldCount(toks.len() as usize))
    }
}

/// What a FEN string describes on an `n`x`n` board: the squares, the side to
/// move, the last destination (-1 for none) and the two counters.
pub open spec fn spec_parse_fen(b: Seq<u8>, n: int) -> Result<(Seq<Piece>, Side, int, u32, u32), FenError> {
    match first_space(b, 0) {
        None => Err(FenError::MissingSide),
        Some(sp) => {
            let rows = segments(b.subrange(0, sp), 47u8);
            if rows.len() != n {
                Err(FenError::InvalidRowsCount(rows.len() as usize, n as usize))
            } else {
                match rows_upto(rows, n, n) {
                    Err(e) => Err(e),
                    Ok((cells, _k)) => match tail_result(tokens(b.subrange(sp + 1, b.len() as int)), n) {
                        Err(e) => Err(e),
                        Ok((l, s, a, c)) => Ok((cells, s, l, a, c)),
                    },
                }
            }
        },
    }
}

// ---------------------------------------------------------------------------
// Writing: rows from the top rank down, runs of empty squares as numbers.
// ---------------------------------------------------------------------------

pub open spec fn run_text(e: int) -> Seq<u8> {
    if e > 0 {
        dec_digits(e as nat)
    } else {
        Seq::empty()
    }
}

/// The text of the first `k` squares of row `r`, and the empty run pending.
pub open spec fn row_text_upto(cells: Seq<Piece>, n: int, r: int, k: int) -> (Seq<u8>, int)
    decreases k,
{
    if k <= 0 {
        (Seq::empty(), 0)
    } else {
        let (t, e) = row_text_upto(cells, n, r, k - 1);
        let p = cells[square_at(r, k - 1, n)];
        if p == Piece::EMPTY {
            (t, e + 1)
        } else {
            (t + run_text(e) + seq![spec_piece_to_char(p)], 0)
        }
    }
}

pub open spec fn row_text(cells: Seq<Piece>, n: int, r: int) -> Seq<u8> {
    let (t, e) = row_text_upto(cells, n, r, n);
    t + run_text(e)
}

/// The rows from the top rank down to rank `n - k + 1`, joined by `/`.
pub open spec fn rows_text(cells: Seq<Piece>, n: int, k: int) -> Seq<u8>
    decreases k,
{
    if k <= 0 {
        Seq::empty()
    } else if k == 1 {
        row_text(cells, n, n - 1)
    } else {
        rows_text(cells, n, k - 1) + seq![47u8] + row_text(cells, n, n - k)
    }
}

pub open spec fn last_to_text(l: int, n: int) -> Seq<u8> {
    if l == -1 {
        seq![45u8]
    } else {
        spec_sq_algebraic(l, n)
    }
}

/// The FEN of a position: rows, last destination, side, the two counters.
pub open spec fn spec_fen_text(b: &Board) -> Seq<u8> {
    let n = b.size();
    rows_text(b.board@, n, n) + seq![32u8] + last_to_text(b.last_move_to as int, n) + seq![32u8] + seq![
        spec_side_to_char(b.side_to_move),
    ] + seq![32u8] + dec_digits(b.halfmove_clock as nat) + seq![32u8] + dec_digits(b.halfmove_count as nat)
}


/// The byte sequences held by a list of byte vectors.
pub open spec fn byte_views(v: Seq<Vec<u8>>) -> Seq<Seq<u8>> {
    v.map_values(|x: Vec<u8>| x@)
}

pub(crate) fn split_segments(b: &[u8], start: usize, end: usize, sep: u8) -> (v: Vec<Vec<u8>>)
    requires
        start <= end <= b@.len(),
    ensures
        byte_views(v@) == segments(b@.subrange(start as int, end as int), sep),
{
    let mut v: Vec<Vec<u8>> = Vec::new();
    v.push(Vec::new());
    proof {
        assert(b@.subrange(start as int, start as int) =~= Seq::<u8>::empty());
        assert(byte_views(v@) =~= seq![Seq::<u8>::empty()]);
    }
    let mut i = start;
    while i < end
        invariant
            start <= i <= end <= b@.len(),
            v@.len() >= 1,
            byte_views(v@) == segments(b@.subrange(start as int, i as int), sep),
        decreases end - i,
    {
        let c = b[i];
        let ghost pre = b@.subrange(start as int, i as int);
        proof {
            assert(b@.subrange(start as int, i + 1).drop_last() =~= pre);
            assert(b@.subrange(start as int, i + 1).last() == c);
        }
        if c == sep {
            v.push(Vec::new());
            proof {
                assert(byte_views(v@) =~= segments(pre, sep).push(Seq::empty()));
            }
        } else {
            let mut last = v.pop().unwrap();
            last.push(c);
            v.push(last);
            proof {
                let sv = segments(pre, sep);
                assert(byte_views(v@) =~= sv.update(sv.len() - 1, sv.last().push(c)));
            }
        }
        i += 1;
    }
    v
}

fn is_ws_exec(c: u8) -> (r: bool)
    ensures
        r == is_ws(c),
{
    c == 32u8 || (9u8 <= c && c <= 13u8)
}

pub(crate) fn split_tokens(b: &[u8], start: usize, end: usize) -> (v: Vec<Vec<u8>>)
    requires
        start <= end <= b@.len(),
    ensures
        byte_views(v@) == tokens(b@.subrange(start as int, end as int)),
        forall|k: int| 0 <= k < v@.len() ==> (#[trigger] v@[k])@.len() >= 1,
{
    let mut v: Vec<Vec<u8>> = Vec::new();
    proof {
        assert(b@.subrange(start as int, start as int) =~= Seq::<u8>::empty());
        assert(byte_views(v@) =~= Seq::<Seq<u8>>::empty());
    }
    let mut i = start;
    while i < end
        invariant
            start <= i <= end <= b@.len(),
            byte_views(v@) == tokens(b@.subrange(start as int, i as int)),
            forall|k: int| 0 <= k < v@.len() ==> (#[trigger] v@[k])@.len() >= 1,
            i > start && !is_ws(b@[i - 1]) ==> v@.len() >= 1,
        decreases end - i,
    {
        let c = b[i];
        let ghost pre = b@.subrange(start as int, i as int);
        proof {
            assert(b@.subrange(start as int, i + 1).drop_last() =~= pre);
            assert(b@.subrange(start as int, i + 1).last() == c);
            if i > start {
                assert(b@.subrange(start as int, i + 1)[i - start - 1] == b@[i - 1]);
            }
        }
        if is_ws_exec(c) {
        } else if i > start && !is_ws_exec(b[i - 1]) {
            let mut last = v.pop().unwrap();
            last.push(c);
            v.push(last);
            proof {
                let tv = tokens(pre);
                assert(byte_views(v@) =~= tv.update(tv.len() - 1, tv.last().push(c)));
            }
        } else {
            let mut t: Vec<u8> = Vec::new();
            t.push(c);
            v.push(t);
            proof {
                assert(byte_views(v@) =~= tokens(pre).push(seq![c]));
            }
        }
        i += 1;
    }
    v
}

fn first_space_exec(b: &[u8]) -> (r: Option<usize>)
    ensures
        r matches Some(i) ==> i < b@.len() && first_space(b@, 0) == Some(i as int),
        r is None <==> first_space(b@, 0) is None,
{
    let mut i: usize = 0;
    while i < b.len()
        invariant
            i <= b@.len(),
            first_space(b@, i as int) == first_space(b@, 0),
        decreases b@.len() - i,
    {
        if b[i] == 32u8 {
            return Some(i);
        }
        i += 1;
    }
    None
}

fn char_to_piece(c: u8) -> (r: Option<Piece>)
    ensures
        r == spec_char_to_piece(c),
{
    if c == 107u8 {
        Some(Piece::KING)
    } else if c == 97u8 {
        Some(Piece::ATTACKER)
    } else if c == 100u8 {
        Some(Piece::DEFENDER)
    } else {
        None
    }
}

fn side_from_char(c: u8) -> (r: Option<Side>)
    ensures
        r == spec_side_from_char(c),
{
    if c == 97u8 {
        Some(Side::ATTACKERS)
    } else if c == 100u8 {
        Some(Side::DEFENDERS)
    } else {
        None
    }
}

fn side_to_char(side: Side) -> (c: u8)
    ensures
        c == spec_side_to_char(side),
{
    match side {
        Side::ATTACKERS => 97u8,
        Side::DEFENDERS => 100u8,
    }
}

pub proof fn lemma_ascii_concat(a: Seq<u8>, b: Seq<u8>)
    requires
        is_ascii_bytes(a),
        is_ascii_bytes(b),
    ensures
        is_ascii_bytes(a + b),
{
    assert forall|i: int| 0 <= i < (a + b).len() implies #[trigger] (a + b)[i] < 128 by {
        if i < a.len() {
            assert((a + b)[i] == a[i]);
        } else {
            assert((a + b)[i] == b[i - a.len()]);
        }
    }
}

fn piece_to_char(p: Piece) -> (c: u8)
    ensures
        c == spec_piece_to_char(p),
{
    match p {
        Piece::KING => 107u8,
        Piece::ATTACKER => 97u8,
        Piece::DEFENDER => 100u8,
        Piece::EMPTY => 46u8,
    }
}


/// Once the scan of a row fails, the scan of any longer prefix fails the same way.
proof fn lemma_row_scan_err(row: Seq<u8>, k: int, n: int, row_idx: int, cells: Seq<Piece>, king: bool)
    requires
        0 <= k <= row.len(),
        row_scan(row.subrange(0, k), n, row_idx, cells, king) is Err,
    ensures
        row_scan(row, n, row_idx, cells, king) == row_scan(row.subrange(0, k), n, row_idx, cells, king),
        row_result(row, n, row_idx, cells, king) == Err::<(Seq<Piece>, bool), FenError>(
            row_scan(row.subrange(0, k), n, row_idx, cells, king)->Err_0,
        ),
    decreases row.len() - k,
{
    if k < row.len() {
        let next = row.subrange(0, k + 1);
        assert(next.drop_last() =~= row.subrange(0, k));
        lemma_row_scan_err(row, k + 1, n, row_idx, cells, king);
    } else {
        assert(row.subrange(0, k) =~= row);
    }
}

/// The rows of a FEN: the text before its first space, cut at every `/`.
pub open spec fn fen_rows(b: Seq<u8>) -> Seq<Seq<u8>> {
    match first_space(b, 0) {
        Some(sp) => segments(b.subrange(0, sp), 47u8),
        None => Seq::empty(),
    }
}

/// The squares after reading a row as far as it goes: where the row is
/// refused, the squares filled before the refused character.
pub open spec fn row_cells(row: Seq<u8>, n: int, row_idx: int, cells: Seq<Piece>, king: bool) -> Seq<Piece>
    decreases row.len(),
{
    if row.len() == 0 {
        cells
    } else {
        match row_scan(row.drop_last(), n, row_idx, cells, king) {
            Ok(st) => match row_step(st, row.last(), n, row_idx) {
                Ok(st2) => st2.2,
                Err(_) => st.2,
            },
            Err(_) => row_cells(row.drop_last(), n, row_idx, cells, king),
        }
    }
}

/// The squares after reading the first `k` rows as far as they go.
pub open spec fn rows_cells(rows: Seq<Seq<u8>>, n: int, k: int) -> Seq<Piece>
    decreases k,
{
    if k <= 0 {
        empty_cells(n * n)
    } else {
        match rows_upto(rows, n, k - 1) {
            Ok((c, kg)) => match row_result(rows[k - 1], n, n - k, c, kg) {
                Ok((c2, _)) => c2,
                Err(_) => row_cells(rows[k - 1], n, n - k, c, kg),
            },
            Err(_) => rows_cells(rows, n, k - 1),
        }
    }
}

proof fn lemma_row_cells_ok(row: Seq<u8>, n: int, row_idx: int, cells: Seq<Piece>, king: bool)
    requires
        row_scan(row, n, row_idx, cells, king) is Ok,
    ensures
        row_cells(row, n, row_idx, cells, king) == row_scan(row, n, row_idx, cells, king)->Ok_0.2,
{
}

/// A row refused at its `k`-th character leaves the squares filled before it.
proof fn lemma_row_cells_err(row: Seq<u8>, k: int, n: int, row_idx: int, cells: Seq<Piece>, king: bool)
    requires
        1 <= k <= row.len(),
        row_scan(row.subrange(0, k - 1), n, row_idx, cells, king) is Ok,
        row_scan(row.subrange(0, k), n, row_idx, cells, king) is Err,
    ensures
        row_cells(row, n, row_idx, cells, king) == row_scan(row.subrange(0, k - 1), n, row_idx, cells, king)->Ok_0.2,
    decreases row.len() - k,
{
    if k < row.len() {
        assert(row.drop_last().subrange(0, k) =~= row.subrange(0, k));
        assert(row.drop_last().subrange(0, k - 1) =~= row.subrange(0, k - 1));
        lemma_row_scan_err(row.drop_last(), k, n, row_idx, cells, king);
        lemma_row_cells_err(row.drop_last(), k, n, row_idx, cells, king);
    } else {
        assert(row.subrange(0, k) =~= row);
        assert(row.drop_last() =~= row.subrange(0, k - 1));
    }
}

proof fn lemma_rows_cells_err(rows: Seq<Seq<u8>>, n: int, k: int, m: int)
    requires
        0 <= k <= m,
        rows_upto(rows, n, k) is Err,
    ensures
        rows_cells(rows, n, m) == rows_cells(rows, n, k),
    decreases m - k,
{
    if k < m {
        lemma_rows_cells_err(rows, n, k, m - 1);
        lemma_rows_upto_err(rows, n, k, m - 1);
    }
}

/// Once a row fails, reading more rows fails the same way.
proof fn lemma_rows_upto_err(rows: Seq<Seq<u8>>, n: int, k: int, m: int)
    requires
        0 <= k <= m,
        rows_upto(rows, n, k) is Err,
    ensures
        rows_upto(rows, n, m) == rows_upto(rows, n, k),
    decreases m - k,
{
    if k < m {
        lemma_rows_upto_err(rows, n, k, m - 1);
    }
}

fn last_to_exec(t: &Vec<u8>, n: usize) -> (r: Option<OptionalSquare>)
    requires
        3 <= n <= 11,
    ensures
        match spec_last_to(t@, n as int) {
            Some(l) => r == Some(l as isize) && (l == -1 || 0 <= l < n * n),
            None => r is None,
        },
{
    proof {
        crate::board::utils::lemma_small_board(n as int);
    }
    if t.len() == 1 && t[0] == 45u8 {
        proof {
            assert(t@ =~= seq![45u8]);
        }
        return Some(HOLE);
    }
    proof {
        assert(t@ != seq![45u8]);
    }
    if t.len() < 2 || t[0] < 97u8 || t[0] >= 97u8 + n as u8 {
        return None;
    }
    let ts = t.as_slice();
    let rank = parse_uint(ts, 1, ts.len(), n as u64);
    proof {
        assert(ts@.subrange(1, ts@.len() as int) =~= t@.drop_first());
    }
    match rank {
        Some(r) => {
            if r >= 1 {
                let row = (r - 1) as usize;
                let col = (t[0] - 97u8) as usize;
                proof {
                    crate::board::utils::lemma_square_compose(row as int, col as int, n as int);
                }
                Some((row * n + col) as isize)
            } else {
                None
            }
        },
        None => None,
    }
}

impl Board {
    /// Puts a piece read from a row on its square, which is still empty.
    fn place_from_fen(&mut self, row_idx: usize, col: usize, piece: Piece)
        requires
            old(self).wf(),
            row_idx < old(self).size(),
            col < old(self).size(),
            piece != Piece::EMPTY,
            piece == Piece::KING ==> old(self).king_sq == HOLE,
            forall|sq: int|
                0 <= sq < old(self).sqs() && (row_of(sq, old(self).size()) < row_idx || (row_of(sq, old(self).size())
                    == row_idx && col_of(sq, old(self).size()) >= col)) ==> #[trigger] old(self).board@[sq] == Piece::EMPTY,
        ensures
            final(self).wf(),
            final(self).same_except_cells(old(self)),
            final(self).board@ == old(self).board@.update(square_at(row_idx as int, col as int, old(self).size()), piece),
            (final(self).king_sq != HOLE) == (old(self).king_sq != HOLE || piece == Piece::KING),
            forall|sq: int|
                0 <= sq < final(self).sqs() && (row_of(sq, final(self).size()) < row_idx || (row_of(sq, final(self).size())
                    == row_idx && col_of(sq, final(self).size()) >= col + 1)) ==> #[trigger] final(self).board@[sq]
                    == Piece::EMPTY,
    {
        let n = self.board_size();
        let ghost nn = n as int;
        proof {
            crate::board::utils::lemma_small_board(nn);
            crate::board::utils::lemma_square_compose(row_idx as int, col as int, nn);
        }
        let sq = crate::board::utils::get_square(row_idx, col, n);
        let ghost before = self.board@;
        let res = self.set_piece(sq, piece);
        proof {
            assert(res is Ok);
            assert forall|s: int|
                0 <= s < nn * nn && (row_of(s, nn) < row_idx || (row_of(s, nn) == row_idx && col_of(s, nn) >= col + 1))
                    implies #[trigger] self.board@[s] == Piece::EMPTY by {
                assert(s != sq);
                assert(before[s] == Piece::EMPTY);
            }
        }
    }

    fn set_row_from_fen(&mut self, row: &Vec<u8>, row_idx: usize) -> (r: Result<(), FenError>)
        requires
            old(self).wf(),
            row_idx < old(self).size(),
            forall|sq: int|
                0 <= sq < old(self).sqs() && row_of(sq, old(self).size()) <= row_idx ==> #[trigger] old(self).board@[sq]
                    == Piece::EMPTY,
        ensures
            final(self).wf(),
            final(self).same_except_cells(old(self)),
            match row_result(row@, old(self).size(), row_idx as int, old(self).board@, old(self).king_sq != HOLE) {
                Ok((c, k)) => {
                    &&& r is Ok
                    &&& final(self).board@ == c
                    &&& (final(self).king_sq != HOLE) == k
                    &&& forall|sq: int|
                        0 <= sq < final(self).sqs() && row_of(sq, final(self).size()) < row_idx ==> #[trigger] final(self).board@[sq]
                            == Piece::EMPTY
                },
                Err(e) => r == Err::<(), FenError>(e),
            },
            r is Err ==> final(self).board@ == row_cells(
                row@,
                old(self).size(),
                row_idx as int,
                old(self).board@,
                old(self).king_sq != HOLE,
            ),
    {
        let ghost o = *self;
        let ghost nn = self.size();
        let n = self.board_size();
        proof {
            crate::board::utils::lemma_small_board(nn);
        }
        let mut col: usize = 0;
        let mut num: usize = 0;
        let mut i: usize = 0;
        proof {
            assert(row@.subrange(0, 0) =~= Seq::<u8>::empty());
        }
        while i < row.len()
            invariant
                self.wf(),
                o == *old(self),
                self.same_except_cells(&o),
                n == self.size(),
                nn == n,
                3 <= n <= 11,
                row_idx < n,
                i <= row@.len(),
                col <= n,
                num <= FEN_NUMBER_CAP,
                row_scan(row@.subrange(0, i as int), nn, row_idx as int, o.board@, o.king_sq != HOLE) == Ok::<
                    (int, int, Seq<Piece>, bool),
                    FenError,
                >((col as int, num as int, self.board@, self.king_sq != HOLE)),
                forall|sq: int|
                    0 <= sq < n * n && (row_of(sq, nn) < row_idx || (row_of(sq, nn) == row_idx && col_of(sq, nn) >= col))
                        ==> #[trigger] self.board@[sq] == Piece::EMPTY,
            decreases row@.len() - i,
        {
            let c = row[i];
            let ghost pre = row@.subrange(0, i as int);
            proof {
                assert(row@.subrange(0, i + 1).drop_last() =~= pre);
                assert(row@.subrange(0, i + 1).last() == c);
            }
            if c >= 48u8 && c <= 57u8 {
                num = num * 10 + (c - 48u8) as usize;
                if num > FEN_NUMBER_CAP {
                    num = FEN_NUMBER_CAP;
                }
            } else {
                if num > 0 {
                    col = col + num;
                    if col > FEN_NUMBER_CAP {
                        col = FEN_NUMBER_CAP;
                    }
                    num = 0;
                }
                match char_to_piece(c) {
                    Some(piece) => {
                        if col >= n {
                            proof {
                                lemma_row_scan_err(row@, i + 1, nn, row_idx as int, o.board@, o.king_sq != HOLE);
                                lemma_row_cells_err(row@, i + 1, nn, row_idx as int, o.board@, o.king_sq != HOLE);
                            }
                            return Err(FenError::RowTooWide { row: row_idx, got: col + 1, should: n });
                        }
                        if piece == Piece::KING && self.king_sq != HOLE {
                            proof {
                                lemma_row_scan_err(row@, i + 1, nn, row_idx as int, o.board@, o.king_sq != HOLE);
                                lemma_row_cells_err(row@, i + 1, nn, row_idx as int, o.board@, o.king_sq != HOLE);
                            }
                            return Err(FenError::InvalidSetPiece);
                        }
                        self.place_from_fen(row_idx, col, piece);
                        col = col + 1;
                    },
                    None => {
                        proof {
                            lemma_row_scan_err(row@, i + 1, nn, row_idx as int, o.board@, o.king_sq != HOLE);
                            lemma_row_cells_err(row@, i + 1, nn, row_idx as int, o.board@, o.king_sq != HOLE);
                        }
                        return Err(FenError::InvalidChar(c as char));
                    },
                }
            }
            i += 1;
        }
        proof {
            assert(row@.subrange(0, row@.len() as int) =~= row@);
            lemma_row_cells_ok(row@, nn, row_idx as int, o.board@, o.king_sq != HOLE);
        }
        if num > 0 {
            col = col + num;
            if col > FEN_NUMBER_CAP {
                col = FEN_NUMBER_CAP;
            }
        }
        if col > n {
            return Err(FenError::RowTooWide { row: row_idx, got: col, should: n });
        }
        Ok(())
    }

    /// The position a FEN string describes, replacing the current one. The
    /// rows come from the top rank down; after them stand either the side to
    /// move alone, or the last destination (`-` for none), the side and the
    /// two move counters.
    pub fn set_fen(&mut self, fen: &str) -> (r: Result<(), FenError>)
        requires
            old(self).wf(),
        ensures
            final(self).wf(),
            final(self).rules == old(self).rules,
            final(self).zobrist_data == old(self).zobrist_data,
            first_space(fen.spec_bytes(), 0) is None ==> *final(self) == *old(self),
            first_space(fen.spec_bytes(), 0) matches Some(sp) && segments(fen.spec_bytes().subrange(0, sp), 47u8).len()
                != old(self).size() ==> *final(self) == *old(self),
            first_space(fen.spec_bytes(), 0) is Some && fen_rows(fen.spec_bytes()).len() == old(self).size() ==> {
                &&& final(self).board@ == rows_cells(fen_rows(fen.spec_bytes()), old(self).size(), old(self).size())
                &&& r is Err ==> {
                    &&& final(self).side_to_move == Side::ATTACKERS
                    &&& final(self).last_move_to == HOLE
                    &&& final(self).halfmove_clock == 0
                    &&& final(self).halfmove_count == 0
                    &&& final(self).rep_table@ == Map::<u64, u8>::empty()
                }
            },
            match spec_parse_fen(fen.spec_bytes(), old(self).size()) {
                Ok((cells, side, l, a, c)) => {
                    &&& r is Ok
                    &&& final(self).board@ == cells
                    &&& final(self).side_to_move == side
                    &&& final(self).last_move_to == l
                    &&& final(self).halfmove_clock == a
                    &&& final(self).halfmove_count == c
                    &&& final(self).rep_table@ == Map::<u64, u8>::empty()
                    &&& !final(self).was_capture
                },
                Err(e) => r == Err::<(), FenError>(e),
            },
    {
        let b = fen.as_bytes();
        let blen = b.len();
        let n = self.board_size();
        let ghost nn = n as int;
        proof {
            crate::board::utils::lemma_small_board(nn);
        }
        let sp = match first_space_exec(b) {
            Some(sp) => sp,
            None => {
                return Err(FenError::MissingSide);
            },
        };
        let rows = split_segments(b, 0, sp, 47u8);
        let ghost rv = byte_views(rows@);
        if rows.len() != n {
            return Err(FenError::InvalidRowsCount(rows.len(), n));
        }
        self.clear();
        proof {
            assert(self.board@ =~= empty_cells(nn * nn));
        }
        let ghost cleared = *self;
        let mut i: usize = 0;
        while i < n
            invariant
                self.wf(),
                self.same_except_cells(&cleared),
                cleared.is_empty_position(cleared.rules),
                cleared.rules == old(self).rules,
                cleared.zobrist_data == old(self).zobrist_data,
                nn == old(self).size(),
                b@ == fen.spec_bytes(),
                sp < blen,
                blen == b@.len(),
                first_space(b@, 0) == Some(sp as int),
                rv == segments(b@.subrange(0, sp as int), 47u8),
                n == self.size(),
                nn == n,
                3 <= n <= 11,
                rows@.len() == n,
                rv == byte_views(rows@),
                i <= n,
                rows_upto(rv, nn, i as int) == Ok::<(Seq<Piece>, bool), FenError>((self.board@, self.king_sq != HOLE)),
                forall|sq: int|
                    0 <= sq < n * n && row_of(sq, nn) <= n - 1 - i ==> #[trigger] self.board@[sq] == Piece::EMPTY,
            decreases n - i,
        {
            let row_idx = n - 1 - i;
            let ghost before = *self;
            let res = self.set_row_from_fen(&rows[i], row_idx);
            proof {
                assert(rv[i as int] == rows@[i as int]@);
            }
            match res {
                Ok(()) => {},
                Err(e) => {
                    proof {
                        lemma_rows_upto_err(rv, nn, i + 1, nn);
                        assert(nn - (i + 1) == row_idx);
                        assert(rows_cells(rv, nn, i + 1) == row_cells(
                            rv[i as int],
                            nn,
                            row_idx as int,
                            before.board@,
                            before.king_sq != HOLE,
                        ));
                        lemma_rows_cells_err(rv, nn, i + 1, nn);
                    }
                    return Err(e);
                },
            }
            i += 1;
        }
        let toks = split_tokens(b, sp + 1, blen);
        let ghost tv = byte_views(toks@);
        proof {
            assert(forall|k: int| 0 <= k < toks@.len() ==> tv[k] == (#[trigger] toks@[k])@);
        }
        let tail = self.parse_tail(&toks);
        proof {
            assert(rows_cells(rv, nn, nn) == self.board@);
        }
        match tail {
            Err(e) => {
                return Err(e);
            },
            Ok((l, side, a, c)) => {
                let ghost cells = self.board@;
                proof {
                    let fb = fen.spec_bytes();
                    assert(fb == b@);
                    assert(rows_upto(rv, nn, nn) == Ok::<(Seq<Piece>, bool), FenError>((cells, self.king_sq != HOLE)));
                    assert(tail_result(tokens(fb.subrange(sp + 1, fb.len() as int)), nn) == Ok::<(int, Side, u32, u32), FenError>((l as int, side, a, c)));
                    assert(spec_parse_fen(fb, nn) == Ok::<(Seq<Piece>, Side, int, u32, u32), FenError>((cells, side, l as int, a, c)));
                }
                self.set_side(side);
                self.last_move_to = l;
                self.halfmove_clock = a;
                self.halfmove_count = c;
            },
        }
        Ok(())
    }

    /// Reads the fields after the rows.
    fn parse_tail(&self, toks: &Vec<Vec<u8>>) -> (r: Result<(OptionalSquare, Side, u32, u32), FenError>)
        requires
            self.wf(),
            forall|k: int| 0 <= k < toks@.len() ==> (#[trigger] toks@[k])@.len() >= 1,
        ensures
            r matches Ok((l, s, a, c)) ==> tail_result(byte_views(toks@), self.size()) == Ok::<
                (int, Side, u32, u32),
                FenError,
            >((l as int, s, a, c)),
            r matches Err(e) ==> tail_result(byte_views(toks@), self.size()) == Err::<(int, Side, u32, u32), FenError>(e),
            r matches Ok((l, _, _, _)) ==> l == HOLE || 0 <= l < self.sqs(),
    {
        let n = self.board_size();
        proof {
            crate::board::utils::lemma_small_board(n as int);
        }
        let ghost tv = byte_views(toks@);
        if toks.len() == 0 {
            return Err(FenError::MissingSide);
        }
        proof {
            assert(tv[0] == toks@[0]@);
        }
        if toks.len() == 1 {
            let c = toks[0][0];
            return match side_from_char(c) {
                Some(s) => Ok((HOLE, s, 0, 0)),
                None => Err(FenError::UnknownSide(c as char)),
            };
        }
        if toks.len() != 4 {
            return Err(FenError::InvalidFieldCount(toks.len()));
        }
        proof {
            assert(tv[1] == toks@[1]@);
            assert(tv[2] == toks@[2]@);
            assert(tv[3] == toks@[3]@);
        }
        let l = match last_to_exec(&toks[0], n) {
            Some(l) => l,
            None => {
                return Err(FenError::InvalidLastTo);
            },
        };
        let sc = toks[1][0];
        let side = match side_from_char(sc) {
            Some(s) => s,
            None => {
                return Err(FenError::UnknownSide(sc as char));
            },
        };
        let t2 = toks[2].as_slice();
        let t3 = toks[3].as_slice();
        let a = parse_uint(t2, 0, t2.len(), 0xFFFF_FFFF);
        let c = parse_uint(t3, 0, t3.len(), 0xFFFF_FFFF);
        proof {
            assert(t2@.subrange(0, t2@.len() as int) =~= tv[2]);
            assert(t3@.subrange(0, t3@.len() as int) =~= tv[3]);
        }
        match (a, c) {
            (Some(a), Some(c)) => Ok((l, side, a as u32, c as u32)),
            _ => Err(FenError::InvalidCounter),
        }
    }

    fn push_row_text(&self, out: &mut Vec<u8>, r: usize)
        requires
            self.wf(),
            r < self.size(),
            is_ascii_bytes(old(out)@),
        ensures
            final(out)@ == old(out)@ + row_text(self.board@, self.size(), r as int),
            is_ascii_bytes(final(out)@),
    {
        let n = self.board_size();
        let ghost nn = n as int;
        let ghost cells = self.board@;
        let ghost start = out@;
        proof {
            crate::board::utils::lemma_small_board(nn);
        }
        let mut empty: usize = 0;
        let mut col: usize = 0;
        while col < n
            invariant
                self.wf(),
                n == self.size(),
                nn == n,
                cells == self.board@,
                3 <= n <= 11,
                r < n,
                col <= n,
                (out@.subrange(start.len() as int, out@.len() as int), empty as int) == row_text_upto(cells, nn, r as int, col as int),
                out@.subrange(0, start.len() as int) == start,
                out@.len() >= start.len(),
                empty <= col,
                is_ascii_bytes(out@),
            decreases n - col,
        {
            proof {
                crate::board::utils::lemma_square_compose(r as int, col as int, nn);
            }
            let sq = crate::board::utils::get_square(r, col, n);
            let p = self.board[sq];
            let ghost before = out@;
            if p == Piece::EMPTY {
                empty = empty + 1;
            } else {
                if empty > 0 {
                    push_decimal(out, empty as u64);
                    proof {
                        lemma_dec_digits_ascii(empty as nat);
                        lemma_ascii_concat(before, dec_digits(empty as nat));
                    }
                }
                let ghost mid = out@;
                out.push(piece_to_char(p));
                proof {
                    lemma_ascii_concat(mid, seq![spec_piece_to_char(p)]);
                    assert(out@ =~= before + run_text(empty as int) + seq![spec_piece_to_char(p)]);
                    assert(out@.subrange(start.len() as int, out@.len() as int) =~= before.subrange(start.len() as int, before.len() as int) + run_text(empty as int) + seq![spec_piece_to_char(p)]);
                }
                empty = 0;
            }
            proof {
                assert(out@.subrange(0, start.len() as int) =~= start);
            }
            col += 1;
        }
        let ghost before = out@;
        if empty > 0 {
            push_decimal(out, empty as u64);
            proof {
                lemma_dec_digits_ascii(empty as nat);
                lemma_ascii_concat(before, dec_digits(empty as nat));
            }
        }
        proof {
            assert(out@ =~= before + run_text(empty as int));
            assert(before =~= start + before.subrange(start.len() as int, before.len() as int));
            assert(out@ =~= start + row_text(cells, nn, r as int));
        }
    }

    /// The position in FEN: rows from the top rank down, the last destination
    /// (`-` for none), the side to move and the two move counters.
    pub fn get_fen(&self) -> (s: String)
        requires
            self.wf(),
        ensures
            s@ == chars_of(spec_fen_text(self)),
            vstd::utf8::encode_utf8(s@) == spec_fen_text(self),
    {
        let n = self.board_size();
        let ghost nn = n as int;
        let ghost cells = self.board@;
        let mut out: Vec<u8> = Vec::new();
        let mut k: usize = 1;
        proof {
            assert(out@ =~= rows_text(cells, nn, 0));
        }
        while k <= n
            invariant
                self.wf(),
                n == self.size(),
                nn == n,
                cells == self.board@,
                3 <= n <= 11,
                1 <= k <= n + 1,
                out@ == rows_text(cells, nn, k - 1),
                is_ascii_bytes(out@),
            decreases n + 1 - k,
        {
            let ghost before = out@;
            if k > 1 {
                out.push(47u8);
                proof {
                    lemma_ascii_concat(before, seq![47u8]);
                }
            }
            let ghost mid = out@;
            self.push_row_text(&mut out, n - k);
            proof {
                if k > 1 {
                    assert(out@ =~= rows_text(cells, nn, k - 1) + seq![47u8] + row_text(cells, nn, nn - k));
                } else {
                    assert(out@ =~= row_text(cells, nn, nn - 1));
                }
            }
            k += 1;
        }
        let ghost rows_part = out@;
        out.push(32u8);
        if self.last_move_to == HOLE {
            out.push(45u8);
        } else {
            push_sq_algebraic(&mut out, self.last_move_to as usize, n);
        }
        out.push(32u8);
        out.push(side_to_char(self.side_to_move));
        out.push(32u8);
        push_decimal(&mut out, self.halfmove_clock as u64);
        let ghost with_clock = out@;
        out.push(32u8);
        push_decimal(&mut out, self.halfmove_count as u64);
        proof {
            lemma_dec_digits_ascii(self.halfmove_clock as nat);
            lemma_dec_digits_ascii(self.halfmove_count as nat);
            assert(out@ =~= spec_fen_text(self));
            assert forall|i: int| 0 <= i < out@.len() implies #[trigger] out@[i] < 128 by {
                if i < rows_part.len() {
                    assert(out@[i] == rows_part[i]);
                }
            }
            let cs = chars_of(out@);
            assert(vstd::utf8::is_ascii_chars(cs)) by {
                assert forall|i: int| 0 <= i < cs.len() implies '\0' <= #[trigger] cs[i] <= '\u{7f}' by {
                    assert(out@[i] < 128);
                    assert(cs[i] == out@[i] as char);
                }
            }
            vstd::utf8::is_ascii_chars_encode_utf8(cs);
            assert(vstd::utf8::encode_utf8(cs) =~= out@) by {
                assert forall|i: int| 0 <= i < out@.len() implies vstd::utf8::encode_utf8(cs)[i] == out@[i] by {
                    assert(cs[i] == out@[i] as char);
                }
            }
        }
        ascii_string(out)
    }

    /// The starting position of the board's variant.
    pub fn setup_initial_position(&mut self) -> (r: Result<(), FenError>)
        requires
            old(self).wf(),
        ensures
            final(self).wf(),
            final(self).rules == old(self).rules,
            match spec_parse_fen(vstd::utf8::encode_utf8(spec_initial_fen(old(self).rules)), old(self).size()) {
                Ok((cells, side, l, a, c)) => {
                    &&& r is Ok
                    &&& final(self).board@ == cells
                    &&& final(self).side_to_move == side
                    &&& final(self).last_move_to == l
                    &&& final(self).halfmove_clock == a
                    &&& final(self).halfmove_count == c
                    &&& final(self).rep_table@ == Map::<u64, u8>::empty()
                    &&& !final(self).was_capture
                },
                Err(e) => r == Err::<(), FenError>(e),
            },
    {
        self.clear();
        let fen = self.rules.initial_fen();
        self.set_fen(fen)
    }
}

} // verus!
