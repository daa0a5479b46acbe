use vstd::prelude::*;
use vstd::string::StringSliceAdditionalSpecFns;
use crate::board::Board;
use crate::board::types::{Col, Row, Square};
use crate::board::utils::{col_of, row_of, square_at};

verus! {

// ---------------------------------------------------------------------------
// Text helpers: ASCII digits and decimal numbers.
// ---------------------------------------------------------------------------

pub open spec fn is_digit(b: u8) -> bool {
    48 <= b <= 57
}

pub open spec fn all_digits(s: Seq<u8>) -> bool {
    forall|i: int| 0 <= i < s.len() ==> is_digit(#[trigger] s[i])
}

/// The number the digits `s` spell, most significant first.
pub open spec fn dec_value(s: Seq<u8>) -> int
    decreases s.len(),
{
    if s.len() == 0 {
        0
    } else {
        dec_value(s.drop_last()) * 10 + (s.last() - 48)
    }
}

/// An unsigned decimal as `str::parse` reads it: an optional `+`, then one or
/// more digits; `None` where the text is not such a number or exceeds `max`.
pub open spec fn spec_parse_uint(s: Seq<u8>, max: int) -> Option<int> {
    let d = if s.len() > 0 && s[0] == 43u8 {
        s.drop_first()
    } else {
        s
    };
    if d.len() > 0 && all_digits(d) && dec_value(d) <= max {
        Some(dec_value(d))
    } else {
        None
    }
}

/// The decimal digits of `v`, most significant first, without leading zeros.
pub open spec fn dec_digits(v: nat) -> Seq<u8>
    decreases v,
{
    if v < 10 {
        seq![(48 + v) as u8]
    } else {
        dec_digits(v / 10).push((48 + v % 10) as u8)
    }
}

/// Bytes read as characters.
pub open spec fn chars_of(b: Seq<u8>) -> Seq<char> {
    b.map_values(|x: u8| x as char)
}

pub open spec fn is_ascii_bytes(b: Seq<u8>) -> bool {
    forall|i: int| 0 <= i < b.len() ==> #[trigger] b[i] < 128
}

/// `String::from_utf8` on ASCII bytes. The contract claims that ASCII bytes
/// are valid UTF-8 and that the string's characters are those bytes.
#[verifier::external_body]
pub(crate) fn ascii_string(bytes: Vec<u8>) -> (s: String)
    requires
        is_ascii_bytes(bytes@),
    ensures
        s@ == chars_of(bytes@),
{
    match String::from_utf8(bytes) {
        Ok(s) => s,
        Err(_) => String::new(),
    }
}

pub proof fn lemma_dec_digits_ascii(v: nat)
    ensures
        is_ascii_bytes(dec_digits(v)),
        dec_digits(v).len() >= 1,
        all_digits(dec_digits(v)),
    decreases v,
{
    if v >= 10 {
        lemma_dec_digits_ascii(v / 10);
    }
}

/// Appends the decimal digits of `v`.
pub fn push_decimal(out: &mut Vec<u8>, v: u64)
    ensures
        final(out)@ == old(out)@ + dec_digits(v as nat),
    decreases v,
{
    if v >= 10 {
        push_decimal(out, v / 10);
    }
    let d: u8 = (v % 10) as u8;
    out.push(48 + d);
    proof {
        if v >= 10 {
            assert(old(out)@ + dec_digits(v as nat) =~= old(out)@ + dec_digits((v / 10) as nat) + seq![(48 + v % 10) as u8]);
        } else {
            assert(dec_digits(v as nat) =~= seq![(48 + v) as u8]);
        }
    }
}

proof fn lemma_dec_value_push(s: Seq<u8>, d: u8)
    ensures
        dec_value(s.push(d)) == dec_value(s) * 10 + (d - 48),
{
    assert(s.push(d).drop_last() =~= s);
}

pub proof fn lemma_dec_value_nonneg(s: Seq<u8>)
    requires
        all_digits(s),
    ensures
        dec_value(s) >= 0,
    decreases s.len(),
{
    if s.len() > 0 {
        lemma_dec_value_nonneg(s.drop_last());
    }
}

/// A longer run of digits is worth at least as much as its prefix.
pub proof fn lemma_dec_value_prefix(s: Seq<u8>, k: int)
    requires
        0 <= k <= s.len(),
        all_digits(s),
    ensures
        dec_value(s.subrange(0, k)) <= dec_value(s),
    decreases s.len() - k,
{
    if k < s.len() {
        lemma_dec_value_prefix(s, k + 1);
        let p = s.subrange(0, k);
        assert(s.subrange(0, k + 1) =~= p.push(s[k]));
        lemma_dec_value_push(p, s[k]);
        assert(all_digits(p));
        lemma_dec_value_nonneg(p);
    } else {
        assert(s.subrange(0, k) =~= s);
    }
}

/// Reads `b[start..end]` as an unsigned decimal no larger than `max`.
pub fn parse_uint(b: &[u8], start: usize, end: usize, max: u64) -> (r: Option<u64>)
    requires
        start <= end <= b@.len(),
    ensures
        r is None <==> spec_parse_uint(b@.subrange(start as int, end as int), max as int) is None,
        r matches Some(v) ==> spec_parse_uint(b@.subrange(start as int, end as int), max as int) == Some(v as int),
{
    let ghost s = b@.subrange(start as int, end as int);
    let mut i = start;
    if i < end && b[i] == 43u8 {
        i = i + 1;
    }
    let ghost d = b@.subrange(i as int, end as int);
    proof {
        if s.len() > 0 && s[0] == 43u8 {
            assert(d =~= s.drop_first());
        } else {
            assert(d =~= s);
        }
    }
    if i >= end {
        return None;
    }
    let first = i;
    let mut v: u64 = 0;
    while i < end
        invariant
            first <= i <= end <= b@.len(),
            start <= first,
            s == b@.subrange(start as int, end as int),
            d == (if s.len() > 0 && s[0] == 43u8 { s.drop_first() } else { s }),
            d == b@.subrange(first as int, end as int),
            d.len() > 0,
            all_digits(d.subrange(0, i - first)),
            v as int == dec_value(d.subrange(0, i - first)),
            v <= max,
        decreases end - i,
    {
        let c = b[i];
        if c < 48 || c > 57 {
            proof {
                assert(d[i - first] == c);
                assert(!is_digit(d[i - first]));
            }
            return None;
        }
        let ghost p = d.subrange(0, i - first);
        proof {
            assert(d.subrange(0, i - first + 1) =~= p.push(c));
            lemma_dec_value_push(p, c);
        }
        let next: u128 = v as u128 * 10 + (c - 48) as u128;
        if next > max as u128 {
            proof {
                let q = d.subrange(0, i - first + 1);
                assert(all_digits(q));
                if all_digits(d) {
                    lemma_dec_value_prefix(d, i - first + 1);
                }
            }
            return None;
        }
        v = next as u64;
        i = i + 1;
    }
    proof {
        assert(d.subrange(0, d.len() as int) =~= d);
    }
    Some(v)
}

// ---------------------------------------------------------------------------
// Squares in algebraic form: a file letter from `a`, then the rank from 1.
// ---------------------------------------------------------------------------

/// The algebraic name of `sq` on an `n`x`n` board.
pub open spec fn spec_sq_algebraic(sq: int, n: int) -> Seq<u8> {
    seq![(97 + col_of(sq, n)) as u8] + dec_digits((row_of(sq, n) + 1) as nat)
}

/// The square an algebraic name denotes: the file byte counted from `a`
/// and the rank as a `u8` counted from 1.
pub open spec fn spec_square_text(b: Seq<u8>, n: int) -> Option<int> {
    if b.len() >= 1 && b[0] >= 97 {
        match spec_parse_uint(b.drop_first(), 255) {
            Some(rank) => if rank >= 1 {
                Some(square_at(rank - 1, b[0] - 97, n))
            } else {
                None
            },
            None => None,
        }
    } else {
        None
    }
}

/// Appends the algebraic name of `sq`.
pub fn push_sq_algebraic(out: &mut Vec<u8>, sq: Square, board_size: usize)
    requires
        2 <= board_size <= 26,
        is_ascii_bytes(old(out)@),
    ensures
        final(out)@ == old(out)@ + spec_sq_algebraic(sq as int, board_size as int),
        is_ascii_bytes(final(out)@),
{
    let col: Col = sq % board_size;
    let row: Row = sq / board_size;
    let ghost start = out@;
    out.push(97u8 + col as u8);
    proof {
        assert(sq / board_size <= sq / 2) by (nonlinear_arith)
            requires
                board_size >= 2,
        ;
    }
    push_decimal(out, row as u64 + 1);
    proof {
        lemma_dec_digits_ascii((row + 1) as nat);
        assert(out@ =~= start + spec_sq_algebraic(sq as int, board_size as int));
        assert forall|i: int| 0 <= i < out@.len() implies #[trigger] out@[i] < 128 by {
            if i >= start.len() + 1 {
                assert(out@[i] == dec_digits((row + 1) as nat)[i - start.len() - 1]);
            }
        }
    }
}

pub fn get_sq_algebraic(sq: Square, board_size: usize) -> (s: String)
    requires
        2 <= board_size <= 26,
    ensures
        s@ == chars_of(spec_sq_algebraic(sq as int, board_size as int)),
{
    let mut out: Vec<u8> = Vec::new();
    push_sq_algebraic(&mut out, sq, board_size);
    proof {
        assert(out@ =~= spec_sq_algebraic(sq as int, board_size as int));
    }
    ascii_string(out)
}

fn square_from_text(coord: &str, board_size: usize) -> (sq: Square)
    requires
        spec_square_text(coord.spec_bytes(), board_size as int) is Some,
        board_size <= 26,
    ensures
        sq == spec_square_text(coord.spec_bytes(), board_size as int)->Some_0,
{
    let b = coord.as_bytes();
    let file: u8 = b[0] - 97u8;
    proof {
        assert(b@.subrange(1, b@.len() as int) =~= b@.drop_first());
    }
    let rank = parse_uint(b, 1, b.len(), 255);
    proof {
        let t = spec_parse_uint(b@.drop_first(), 255);
        assert(t is Some);
        assert(t->Some_0 <= 255 && t->Some_0 >= 1);
    }
    match rank {
        Some(r) => {
            let row: Row = (r - 1) as Row;
            proof {
                assert(row * board_size <= 254 * 26) by (nonlinear_arith)
                    requires
                        row <= 254,
                        board_size <= 26,
                ;
            }
            row * board_size + file as Col
        },
        None => 0,
    }
}

/// The square named `coord` on the standard 11x11 board. The name must be a
/// file letter and a rank from 1 to 255.
pub fn get_square_from_algebraic(coord: &str) -> (sq: Square)
    requires
        spec_square_text(coord.spec_bytes(), 11) is Some,
    ensures
        sq == spec_square_text(coord.spec_bytes(), 11)->Some_0,
{
    square_from_text(coord, 11)
}

impl Board {
    /// The square named `coord` on this board.
    pub fn get_square_from_algebraic(&self, coord: &str) -> (sq: Square)
        requires
            self.wf(),
            spec_square_text(coord.spec_bytes(), self.size()) is Some,
        ensures
            sq == spec_square_text(coord.spec_bytes(), self.size())->Some_0,
    {
        square_from_text(coord, self.board_size())
    }

    /// The algebraic name of `sq` on this board.
    pub fn get_sq_algebraic(&self, sq: Square) -> (s: String)
        requires
            self.wf(),
        ensures
            s@ == chars_of(spec_sq_algebraic(sq as int, self.size())),
    {
        get_sq_algebraic(sq, self.board_size())
    }
}

} // verus!
