use vstd::prelude::*;
use vstd::string::StringSliceAdditionalSpecFns;
use crate::board::Board;
use crate::board::fen::{
    cap, empty_cells, first_space, is_ws, last_to_text, row_result, row_scan, row_step, row_text, row_text_upto,
    rows_text, rows_upto, run_text, segments, spec_char_to_piece, spec_fen_text, spec_last_to, spec_parse_fen,
    spec_piece_to_char, spec_side_from_char, spec_side_to_char, tail_result, tokens, FenError,
};
use crate::board::notation::spec_sq_algebraic;
use crate::board::notation::{
    all_digits, dec_digits, dec_value, is_digit, lemma_dec_value_nonneg, lemma_dec_value_prefix, spec_parse_uint,
};
use crate::board::types::Piece;
use crate::moves::algebraic::{digits_end, spec_move_algebraic, spec_parse_move, RANK_PARSE_MAX};
use crate::moves::mv::Move;
use crate::board::utils::{col_of, lemma_square_compose, lemma_square_parts, row_of, square_at};

verus! {

/// No byte of `s` is `c`.
pub open spec fn free_of(s: Seq<u8>, c: u8) -> bool {
    forall|i: int| 0 <= i < s.len() ==> #[trigger] s[i] != c
}

/// A non-empty run of bytes none of which is whitespace.
pub open spec fn is_word(w: Seq<u8>) -> bool {
    w.len() > 0 && forall|i: int| 0 <= i < w.len() ==> !is_ws(#[trigger] w[i])
}

/// The digits of a number read back as that number.
proof fn lemma_dec_digits_value(v: nat)
    ensures
        dec_value(dec_digits(v)) == v,
        all_digits(dec_digits(v)),
        dec_digits(v).len() >= 1,
    decreases v,
{
    if v < 10 {
        let s = dec_digits(v);
        assert(s.drop_last() =~= Seq::<u8>::empty());
        assert(s.last() == (48 + v) as u8);
        assert(dec_value(s) == dec_value(Seq::<u8>::empty()) * 10 + (s.last() - 48));
    } else {
        lemma_dec_digits_value(v / 10);
        let d = dec_digits(v / 10);
        let s = d.push((48 + v % 10) as u8);
        assert(s.drop_last() =~= d);
        assert(dec_value(s) == dec_value(d) * 10 + (v % 10));
        assert((v / 10) * 10 + v % 10 == v) by (nonlinear_arith);
        assert forall|i: int| 0 <= i < s.len() implies is_digit(#[trigger] s[i]) by {
            if i < d.len() {
                assert(s[i] == d[i]);
            }
        }
    }
}

/// Printing a number and parsing it gives the number back.
proof fn lemma_parse_dec_digits(v: nat, max: int)
    requires
        v <= max,
    ensures
        spec_parse_uint(dec_digits(v), max) == Some(v as int),
{
    lemma_dec_digits_value(v);
    assert(is_digit(dec_digits(v)[0]));
}

/// Appending bytes free of the separator extends the last segment.
proof fn lemma_segments_extend(x: Seq<u8>, b: Seq<u8>, sep: u8)
    requires
        free_of(b, sep),
    ensures
        segments(x + b, sep) == segments(x, sep).update(
            segments(x, sep).len() - 1,
            segments(x, sep).last() + b,
        ),
        segments(x, sep).len() >= 1,
    decreases b.len(),
{
    lemma_segments_nonempty(x, sep);
    if b.len() == 0 {
        assert(x + b =~= x);
        assert(segments(x, sep).last() + b =~= segments(x, sep).last());
        assert(segments(x, sep).update(segments(x, sep).len() - 1, segments(x, sep).last()) =~= segments(x, sep));
    } else {
        let b0 = b.drop_last();
        assert(free_of(b0, sep));
        lemma_segments_extend(x, b0, sep);
        assert((x + b).drop_last() =~= x + b0);
        assert((x + b).last() == b.last());
        let init = segments(x + b0, sep);
        assert(init.last() =~= segments(x, sep).last() + b0);
        assert((segments(x, sep).last() + b0).push(b.last()) =~= segments(x, sep).last() + b);
        assert(init.update(init.len() - 1, init.last().push(b.last())) =~= segments(x, sep).update(
            segments(x, sep).len() - 1,
            segments(x, sep).last() + b,
        ));
    }
}

proof fn lemma_segments_nonempty(x: Seq<u8>, sep: u8)
    ensures
        segments(x, sep).len() >= 1,
    decreases x.len(),
{
    if x.len() > 0 {
        lemma_segments_nonempty(x.drop_last(), sep);
    }
}

/// Bytes free of the separator form a single segment.
proof fn lemma_segments_single(b: Seq<u8>, sep: u8)
    requires
        free_of(b, sep),
    ensures
        segments(b, sep) == seq![b],
{
    lemma_segments_extend(Seq::empty(), b, sep);
    assert(Seq::<u8>::empty() + b =~= b);
    assert(segments(Seq::<u8>::empty(), sep) =~= seq![Seq::<u8>::empty()]);
    assert(Seq::<u8>::empty() + b =~= b);
    assert(seq![Seq::<u8>::empty()].update(0, Seq::<u8>::empty() + b) =~= seq![b]);
}

/// A separator and then bytes free of it add one segment.
proof fn lemma_segments_join(x: Seq<u8>, b: Seq<u8>, sep: u8)
    requires
        free_of(b, sep),
    ensures
        segments(x + seq![sep] + b, sep) == segments(x, sep).push(b),
{
    let y = x + seq![sep];
    assert(y.drop_last() =~= x);
    assert(y.last() == sep);
    assert(segments(y, sep) == segments(x, sep).push(Seq::empty()));
    lemma_segments_extend(y, b, sep);
    assert(Seq::<u8>::empty() + b =~= b);
    assert(segments(x, sep).push(Seq::empty()).update(segments(x, sep).len() as int, Seq::<u8>::empty() + b)
        =~= segments(x, sep).push(b));
}

/// The first space is where the space-free prefix ends.
proof fn lemma_first_space_at(s: Seq<u8>, i: int, p: int)
    requires
        0 <= i <= p < s.len(),
        s[p] == 32u8,
        forall|j: int| i <= j < p ==> s[j] != 32u8,
    ensures
        first_space(s, i) == Some(p),
    decreases p - i,
{
    if i < p {
        lemma_first_space_at(s, i + 1, p);
    }
}

/// The tokens of a text that ends in whitespace, or is empty, do not change
/// when a space is added.
proof fn lemma_tokens_space(x: Seq<u8>)
    ensures
        tokens(x + seq![32u8]) == tokens(x),
{
    let y = x + seq![32u8];
    assert(y.drop_last() =~= x);
}

/// After whitespace (or at the start), a word adds one token.
proof fn lemma_tokens_word(x: Seq<u8>, w: Seq<u8>)
    requires
        is_word(w),
        x.len() == 0 || is_ws(x.last()),
    ensures
        tokens(x + w) == tokens(x).push(w),
    decreases w.len(),
{
    if w.len() == 1 {
        let y = x + w;
        assert(y.drop_last() =~= x);
        assert(y.last() == w[0]);
        assert(!is_ws(w[0]));
        if y.len() >= 2 {
            assert(y[y.len() - 2] == x.last());
        }
        assert(seq![w[0]] =~= w);
    } else {
        let w0 = w.drop_last();
        assert(is_word(w0)) by {
            assert forall|i: int| 0 <= i < w0.len() implies !is_ws(#[trigger] w0[i]) by {
                assert(w0[i] == w[i]);
            }
        }
        lemma_tokens_word(x, w0);
        let y = x + w;
        assert(y.drop_last() =~= x + w0);
        assert(y.last() == w.last());
        assert(!is_ws(w[w.len() - 1]));
        assert(y[y.len() - 2] == w0.last());
        assert(!is_ws(w0[w0.len() - 1]));
        let init = tokens(x + w0);
        assert(init.last() == w0);
        assert(w0.push(w.last()) =~= w);
        assert(init.update(init.len() - 1, init.last().push(w.last())) =~= tokens(x).push(w));
    }
}

/// A space and then a word add one token.
proof fn lemma_tokens_space_word(x: Seq<u8>, w: Seq<u8>)
    requires
        is_word(w),
    ensures
        tokens(x + seq![32u8] + w) == tokens(x).push(w),
{
    lemma_tokens_space(x);
    let y = x + seq![32u8];
    assert(y.last() == 32u8);
    lemma_tokens_word(y, w);
}

/// The state of a row scan: next column, pending digit run, squares, king seen.
pub type ScanState = (int, int, Seq<Piece>, bool);

/// Reads the bytes `b` on from the scan result `res`.
pub open spec fn scan_more(res: Result<ScanState, FenError>, b: Seq<u8>, n: int, r: int) -> Result<ScanState, FenError>
    decreases b.len(),
{
    if b.len() == 0 {
        res
    } else {
        match scan_more(res, b.drop_last(), n, r) {
            Ok(st) => row_step(st, b.last(), n, r),
            Err(e) => Err(e),
        }
    }
}

/// Scanning two pieces of a row one after the other is scanning the row.
proof fn lemma_scan_concat(a: Seq<u8>, b: Seq<u8>, n: int, r: int, c: Seq<Piece>, kg: bool)
    ensures
        row_scan(a + b, n, r, c, kg) == scan_more(row_scan(a, n, r, c, kg), b, n, r),
    decreases b.len(),
{
    if b.len() == 0 {
        assert(a + b =~= a);
    } else {
        lemma_scan_concat(a, b.drop_last(), n, r, c, kg);
        assert((a + b).drop_last() =~= a + b.drop_last());
        assert((a + b).last() == b.last());
    }
}

/// A run of digits worth at most the cap is read as its value.
proof fn lemma_scan_digits(col: int, c: Seq<Piece>, kg: bool, d: Seq<u8>, n: int, r: int)
    requires
        all_digits(d),
        dec_value(d) <= 1000,
    ensures
        scan_more(Ok((col, 0, c, kg)), d, n, r) == Ok::<ScanState, FenError>((col, dec_value(d), c, kg)),
    decreases d.len(),
{
    if d.len() > 0 {
        let d0 = d.drop_last();
        assert(d.subrange(0, d.len() - 1) =~= d0);
        lemma_dec_value_prefix(d, d.len() - 1);
        assert(all_digits(d0)) by {
            assert forall|i: int| 0 <= i < d0.len() implies is_digit(#[trigger] d0[i]) by {
                assert(d0[i] == d[i]);
            }
        }
        lemma_dec_value_nonneg(d0);
        lemma_scan_digits(col, c, kg, d0, n, r);
        assert(is_digit(d[d.len() - 1]));
        assert(cap(dec_value(d0) * 10 + (d.last() - 48)) == dec_value(d));
    }
}

/// The squares `target` holds in the rows from `r` up and, in row `r - 1`,
/// before column `k`; empty elsewhere.
pub open spec fn filled(target: Seq<Piece>, n: int, r: int, k: int) -> Seq<Piece> {
    Seq::new(
        (n * n) as nat,
        |s: int|
            if row_of(s, n) >= r || (row_of(s, n) == r - 1 && col_of(s, n) < k) {
                target[s]
            } else {
                Piece::EMPTY
            },
    )
}

/// A king stands in the rows from `r` up or, in row `r - 1`, before column `k`.
pub open spec fn king_seen(target: Seq<Piece>, n: int, r: int, k: int) -> bool {
    exists|s: int|
        0 <= s < n * n && (row_of(s, n) >= r || (row_of(s, n) == r - 1 && col_of(s, n) < k)) && #[trigger] target[s]
            == Piece::KING
}

/// At most one square holds a king.
pub open spec fn one_king(target: Seq<Piece>) -> bool {
    forall|a: int, b: int|
        0 <= a < target.len() && 0 <= b < target.len() && #[trigger] target[a] == Piece::KING && #[trigger] target[b]
            == Piece::KING ==> a == b
}

/// Scanning the text of the first `k` squares of row `r` fills them in.
proof fn lemma_row_text_scan(target: Seq<Piece>, n: int, r: int, k: int)
    requires
        3 <= n <= 11,
        target.len() == n * n,
        one_king(target),
        0 <= r < n,
        0 <= k <= n,
    ensures
        ({
            let (t, e) = row_text_upto(target, n, r, k);
            &&& 0 <= e <= k
            &&& forall|j: int| k - e <= j < k ==> target[#[trigger] square_at(r, j, n)] == Piece::EMPTY
            &&& row_scan(t, n, r, filled(target, n, r + 1, 0), king_seen(target, n, r + 1, 0)) == Ok::<
                ScanState,
                FenError,
            >((k - e, 0, filled(target, n, r + 1, k), king_seen(target, n, r + 1, k)))
        }),
    decreases k,
{
    let c0 = filled(target, n, r + 1, 0);
    let kg0 = king_seen(target, n, r + 1, 0);
    if k == 0 {
        assert(filled(target, n, r + 1, 0) == filled(target, n, r + 1, k));
    } else {
        lemma_row_text_scan(target, n, r, k - 1);
        let (t1, e1) = row_text_upto(target, n, r, k - 1);
        let sq = square_at(r, k - 1, n);
        lemma_square_compose(r, k - 1, n);
        let p = target[sq];
        let ck1 = filled(target, n, r + 1, k - 1);
        let ck = filled(target, n, r + 1, k);
        assert forall|s: int| 0 <= s < n * n implies #[trigger] ck[s] == (if s == sq { p } else { ck1[s] }) by {
            lemma_square_parts(s, n);
        }
        if p == Piece::EMPTY {
            assert(ck =~= ck1);
            assert(king_seen(target, n, r + 1, k) == king_seen(target, n, r + 1, k - 1)) by {
                if king_seen(target, n, r + 1, k) {
                    let s = choose|s: int|
                        0 <= s < n * n && (row_of(s, n) >= r + 1 || (row_of(s, n) == r && col_of(s, n) < k))
                            && #[trigger] target[s] == Piece::KING;
                    lemma_square_parts(s, n);
                }
            }
        } else {
            let t = row_text_upto(target, n, r, k).0;
            let ch = spec_piece_to_char(p);
            assert(t == t1 + run_text(e1) + seq![ch]);
            lemma_scan_concat(t1 + run_text(e1), seq![ch], n, r, c0, kg0);
            lemma_scan_concat(t1, run_text(e1), n, r, c0, kg0);
            let st1 = (k - 1 - e1, 0int, ck1, king_seen(target, n, r + 1, k - 1));
            if e1 > 0 {
                crate::board::fen_laws::lemma_dec_digits_value(e1 as nat);
                lemma_scan_digits(k - 1 - e1, ck1, king_seen(target, n, r + 1, k - 1), dec_digits(e1 as nat), n, r);
            } else {
                assert(run_text(e1) =~= Seq::<u8>::empty());
            }
            let st2 = (k - 1 - e1, e1, ck1, king_seen(target, n, r + 1, k - 1));
            assert(scan_more(Ok(st1), run_text(e1), n, r) == Ok::<ScanState, FenError>(st2));
            assert(seq![ch].drop_last() =~= Seq::<u8>::empty());
            assert(row_scan(t1 + run_text(e1), n, r, c0, kg0) == Ok::<ScanState, FenError>(st2));
            assert(scan_more(Ok(st2), Seq::<u8>::empty(), n, r) == Ok::<ScanState, FenError>(st2));
            assert(scan_more(Ok(st2), seq![ch], n, r) == row_step(st2, ch, n, r));
            assert(!is_digit(ch));
            assert(spec_char_to_piece(ch) == Some(p));
            if p == Piece::KING {
                assert(!king_seen(target, n, r + 1, k - 1)) by {
                    if king_seen(target, n, r + 1, k - 1) {
                        let s = choose|s: int|
                            0 <= s < n * n && (row_of(s, n) >= r + 1 || (row_of(s, n) == r && col_of(s, n) < k - 1))
                                && #[trigger] target[s] == Piece::KING;
                        assert(s == sq);
                    }
                }
            }
            assert(ck1.update(sq, p) =~= ck);
            assert(king_seen(target, n, r + 1, k) == (king_seen(target, n, r + 1, k - 1) || p == Piece::KING)) by {
                if king_seen(target, n, r + 1, k) && p != Piece::KING {
                    let s = choose|s: int|
                        0 <= s < n * n && (row_of(s, n) >= r + 1 || (row_of(s, n) == r && col_of(s, n) < k))
                            && #[trigger] target[s] == Piece::KING;
                    lemma_square_parts(s, n);
                    assert(s != sq);
                    assert(col_of(s, n) != k - 1 || row_of(s, n) != r);
                }
                if p == Piece::KING {
                    assert(target[sq] == Piece::KING);
                }
            }
        }
    }
}

/// A whole row's text reads back as the row.
proof fn lemma_row_result(target: Seq<Piece>, n: int, r: int)
    requires
        3 <= n <= 11,
        target.len() == n * n,
        one_king(target),
        0 <= r < n,
    ensures
        row_result(row_text(target, n, r), n, r, filled(target, n, r + 1, 0), king_seen(target, n, r + 1, 0))
            == Ok::<(Seq<Piece>, bool), FenError>((filled(target, n, r, 0), king_seen(target, n, r, 0))),
{
    lemma_row_text_scan(target, n, r, n);
    let (t, e) = row_text_upto(target, n, r, n);
    let c0 = filled(target, n, r + 1, 0);
    let kg0 = king_seen(target, n, r + 1, 0);
    lemma_scan_concat(t, run_text(e), n, r, c0, kg0);
    let cn = filled(target, n, r + 1, n);
    let kn = king_seen(target, n, r + 1, n);
    if e > 0 {
        lemma_dec_digits_value(e as nat);
        lemma_scan_digits(n - e, cn, kn, dec_digits(e as nat), n, r);
    } else {
        assert(run_text(e) =~= Seq::<u8>::empty());
    }
    assert(scan_more(Ok((n - e, 0int, cn, kn)), run_text(e), n, r) == Ok::<ScanState, FenError>((n - e, e, cn, kn)));
    assert(row_text(target, n, r) == t + run_text(e));
    assert(row_scan(row_text(target, n, r), n, r, c0, kg0) == Ok::<ScanState, FenError>((n - e, e, cn, kn)));
    assert(cap(n - e + e) == n);
    assert(row_result(row_text(target, n, r), n, r, c0, kg0) == Ok::<(Seq<Piece>, bool), FenError>((cn, kn)));
    assert(cn =~= filled(target, n, r, 0)) by {
        assert forall|s: int| 0 <= s < n * n implies cn[s] == filled(target, n, r, 0)[s] by {
            lemma_square_parts(s, n);
        }
    }
    assert(kn == king_seen(target, n, r, 0)) by {
        if kn {
            let s = choose|s: int|
                0 <= s < n * n && (row_of(s, n) >= r + 1 || (row_of(s, n) == r && col_of(s, n) < n)) && #[trigger] target[s]
                    == Piece::KING;
            assert(row_of(s, n) >= r);
        }
        if king_seen(target, n, r, 0) {
            let s = choose|s: int|
                0 <= s < n * n && (row_of(s, n) >= r || (row_of(s, n) == r - 1 && col_of(s, n) < 0)) && #[trigger] target[s]
                    == Piece::KING;
            lemma_square_parts(s, n);
        }
    }
}

/// A byte of a row's text: a digit or a piece letter.
pub open spec fn row_byte(c: u8) -> bool {
    is_digit(c) || c == 97u8 || c == 100u8 || c == 107u8
}

pub open spec fn row_bytes(s: Seq<u8>) -> bool {
    forall|i: int| 0 <= i < s.len() ==> row_byte(#[trigger] s[i])
}

proof fn lemma_row_bytes_concat(a: Seq<u8>, b: Seq<u8>)
    requires
        row_bytes(a),
        row_bytes(b),
    ensures
        row_bytes(a + b),
{
    assert forall|i: int| 0 <= i < (a + b).len() implies row_byte(#[trigger] (a + b)[i]) by {
        if i < a.len() {
            assert((a + b)[i] == a[i]);
        } else {
            assert((a + b)[i] == b[i - a.len()]);
        }
    }
}

proof fn lemma_run_text_bytes(e: int)
    ensures
        row_bytes(run_text(e)),
{
    if e > 0 {
        lemma_dec_digits_value(e as nat);
    }
}

proof fn lemma_row_text_upto_bytes(target: Seq<Piece>, n: int, r: int, k: int)
    ensures
        row_bytes(row_text_upto(target, n, r, k).0),
    decreases k,
{
    if k > 0 {
        lemma_row_text_upto_bytes(target, n, r, k - 1);
        let (t, e) = row_text_upto(target, n, r, k - 1);
        let p = target[square_at(r, k - 1, n)];
        if p != Piece::EMPTY {
            lemma_run_text_bytes(e);
            lemma_row_bytes_concat(t, run_text(e));
            assert(row_byte(spec_piece_to_char(p)));
            lemma_row_bytes_concat(t + run_text(e), seq![spec_piece_to_char(p)]);
        }
    }
}

proof fn lemma_row_text_bytes(target: Seq<Piece>, n: int, r: int)
    ensures
        row_bytes(row_text(target, n, r)),
        free_of(row_text(target, n, r), 47u8),
        free_of(row_text(target, n, r), 32u8),
{
    lemma_row_text_upto_bytes(target, n, r, n);
    let (t, e) = row_text_upto(target, n, r, n);
    lemma_run_text_bytes(e);
    lemma_row_bytes_concat(t, run_text(e));
}

/// The rows of the text are the rows of the board, from the top rank down.
proof fn lemma_rows_text_segments(target: Seq<Piece>, n: int, k: int)
    requires
        1 <= k,
    ensures
        segments(rows_text(target, n, k), 47u8) == Seq::new(k as nat, |i: int| row_text(target, n, n - 1 - i)),
        free_of(rows_text(target, n, k), 32u8),
    decreases k,
{
    lemma_row_text_bytes(target, n, n - k);
    if k == 1 {
        lemma_segments_single(row_text(target, n, n - 1), 47u8);
        assert(Seq::new(1nat, |i: int| row_text(target, n, n - 1 - i)) =~= seq![row_text(target, n, n - 1)]);
    } else {
        lemma_rows_text_segments(target, n, k - 1);
        let prev = rows_text(target, n, k - 1);
        lemma_segments_join(prev, row_text(target, n, n - k), 47u8);
        assert(Seq::new((k - 1) as nat, |i: int| row_text(target, n, n - 1 - i)).push(row_text(target, n, n - k))
            =~= Seq::new(k as nat, |i: int| row_text(target, n, n - 1 - i)));
        let whole = prev + seq![47u8] + row_text(target, n, n - k);
        assert forall|i: int| 0 <= i < whole.len() implies #[trigger] whole[i] != 32u8 by {
            if i < prev.len() {
                assert(whole[i] == prev[i]);
            } else if i > prev.len() {
                assert(whole[i] == row_text(target, n, n - k)[i - prev.len() - 1]);
            }
        }
    }
}

/// Reading the rows back fills the board from the top rank down.
proof fn lemma_rows_upto_text(target: Seq<Piece>, n: int, k: int)
    requires
        3 <= n <= 11,
        target.len() == n * n,
        one_king(target),
        0 <= k <= n,
    ensures
        rows_upto(Seq::new(n as nat, |i: int| row_text(target, n, n - 1 - i)), n, k) == Ok::<
            (Seq<Piece>, bool),
            FenError,
        >((filled(target, n, n - k, 0), king_seen(target, n, n - k, 0))),
    decreases k,
{
    let rows = Seq::new(n as nat, |i: int| row_text(target, n, n - 1 - i));
    if k == 0 {
        assert(filled(target, n, n, 0) =~= empty_cells(n * n)) by {
            assert forall|s: int| 0 <= s < n * n implies filled(target, n, n, 0)[s] == Piece::EMPTY by {
                lemma_square_parts(s, n);
            }
        }
        assert(!king_seen(target, n, n, 0)) by {
            if king_seen(target, n, n, 0) {
                let s = choose|s: int|
                    0 <= s < n * n && (row_of(s, n) >= n || (row_of(s, n) == n - 1 && col_of(s, n) < 0)) && #[trigger] target[s]
                        == Piece::KING;
                lemma_square_parts(s, n);
            }
        }
    } else {
        lemma_rows_upto_text(target, n, k - 1);
        assert(rows[k - 1] == row_text(target, n, n - k));
        lemma_row_result(target, n, n - k);
    }
}

/// The last destination reads back as written.
proof fn lemma_last_to_text(l: int, n: int)
    requires
        3 <= n <= 11,
        l == -1 || 0 <= l < n * n,
    ensures
        spec_last_to(last_to_text(l, n), n) == Some(l),
        is_word(last_to_text(l, n)),
{
    if l == -1 {
        assert(last_to_text(l, n) =~= seq![45u8]);
    } else {
        lemma_square_parts(l, n);
        let row = row_of(l, n);
        let col = col_of(l, n);
        let d = dec_digits((row + 1) as nat);
        lemma_dec_digits_value((row + 1) as nat);
        lemma_parse_dec_digits((row + 1) as nat, n);
        let t = spec_sq_algebraic(l, n);
        assert(t[0] == (97 + col) as u8);
        assert(t.drop_first() =~= d);
        assert(t != seq![45u8]);
        assert forall|i: int| 0 <= i < t.len() implies !is_ws(#[trigger] t[i]) by {
            if i > 0 {
                assert(t[i] == d[i - 1]);
                assert(is_digit(d[i - 1]));
            }
        }
    }
}

proof fn lemma_digits_word(v: nat)
    ensures
        is_word(dec_digits(v)),
{
    lemma_dec_digits_value(v);
    assert forall|i: int| 0 <= i < dec_digits(v).len() implies !is_ws(#[trigger] dec_digits(v)[i]) by {
        assert(is_digit(dec_digits(v)[i]));
    }
}

/// Reading back the FEN of a position gives the position: its squares, the
/// side to move, the last destination and both move counters.
pub proof fn lemma_fen_round_trip(b: &Board)
    requires
        b.wf(),
    ensures
        spec_parse_fen(spec_fen_text(b), b.size()) == Ok::<(Seq<Piece>, crate::board::types::Side, int, u32, u32), FenError>(
            (b.board@, b.side_to_move, b.last_move_to as int, b.halfmove_clock, b.halfmove_count),
        ),
{
    let n = b.size();
    let cells = b.board@;
    assert(one_king(cells)) by {
        assert forall|x: int, y: int|
            0 <= x < cells.len() && 0 <= y < cells.len() && #[trigger] cells[x] == Piece::KING && #[trigger] cells[y]
                == Piece::KING implies x == y by {
            assert(b.king_sq == x && b.king_sq == y);
        }
    }
    let rt = rows_text(cells, n, n);
    lemma_rows_text_segments(cells, n, n);
    let lt = last_to_text(b.last_move_to as int, n);
    lemma_last_to_text(b.last_move_to as int, n);
    let sc = seq![spec_side_to_char(b.side_to_move)];
    let da = dec_digits(b.halfmove_clock as nat);
    let dc = dec_digits(b.halfmove_count as nat);
    lemma_digits_word(b.halfmove_clock as nat);
    lemma_digits_word(b.halfmove_count as nat);
    let tail = lt + seq![32u8] + sc + seq![32u8] + da + seq![32u8] + dc;
    let text = spec_fen_text(b);
    assert(text =~= rt + seq![32u8] + tail);
    lemma_first_space_at(text, 0, rt.len() as int);
    assert(text.subrange(0, rt.len() as int) =~= rt);
    assert(text.subrange(rt.len() as int + 1, text.len() as int) =~= tail);
    lemma_rows_upto_text(cells, n, n);
    assert(filled(cells, n, 0, 0) =~= cells) by {
        assert forall|s: int| 0 <= s < n * n implies filled(cells, n, 0, 0)[s] == cells[s] by {
            lemma_square_parts(s, n);
        }
    }
    lemma_tokens_word(Seq::empty(), lt);
    assert(Seq::<u8>::empty() + lt =~= lt);
    assert(tokens(Seq::<u8>::empty()) =~= Seq::<Seq<u8>>::empty());
    assert(is_word(sc));
    lemma_tokens_space_word(lt, sc);
    lemma_tokens_space_word(lt + seq![32u8] + sc, da);
    lemma_tokens_space_word(lt + seq![32u8] + sc + seq![32u8] + da, dc);
    let toks = tokens(tail);
    assert(toks =~= seq![lt, sc, da, dc]);
    lemma_parse_dec_digits(b.halfmove_clock as nat, 0xFFFF_FFFF);
    lemma_parse_dec_digits(b.halfmove_count as nat, 0xFFFF_FFFF);
    assert(spec_side_from_char(sc[0]) == Some(b.side_to_move));
    assert(tail_result(toks, n) == Ok::<(int, crate::board::types::Side, u32, u32), FenError>(
        (b.last_move_to as int, b.side_to_move, b.halfmove_clock, b.halfmove_count),
    ));
}

/// Setting a board from the FEN it writes gives the same position back,
/// hash included: the squares, the side to move, the last destination, both
/// counters, the king's square, the piece counts and the Zobrist hash, since
/// the board keeps its hash keys through `set_fen`.
pub proof fn lemma_get_fen_set_fen(b: &Board, fen: &str, after: &Board)
    requires
        b.wf(),
        fen.spec_bytes() == spec_fen_text(b),
        after.wf(),
        after.rules == b.rules,
        after.zobrist_data == b.zobrist_data,
        spec_parse_fen(fen.spec_bytes(), b.size()) matches Ok((cells, side, l, a, c)) ==> {
            &&& after.board@ == cells
            &&& after.side_to_move == side
            &&& after.last_move_to == l
            &&& after.halfmove_clock == a
            &&& after.halfmove_count == c
        },
    ensures
        after.board@ == b.board@,
        after.side_to_move == b.side_to_move,
        after.last_move_to == b.last_move_to,
        after.halfmove_clock == b.halfmove_clock,
        after.halfmove_count == b.halfmove_count,
        after.king_sq == b.king_sq,
        after.attackers_count == b.attackers_count,
        after.defenders_count == b.defenders_count,
        after.zobrist == b.zobrist,
{
    lemma_fen_round_trip(b);
    crate::moves::roundtrip::lemma_wf_same_cells(after, b);
}

/// Digits from `i` up to a non-digit at `j` end the run at `j`.
proof fn lemma_digits_end_at(s: Seq<u8>, i: int, j: int)
    requires
        1 <= i <= j < s.len(),
        forall|k: int| i <= k < j ==> is_digit(#[trigger] s[k]),
        !is_digit(s[j]),
    ensures
        digits_end(s, i) == j,
    decreases j - i,
{
    if i < j {
        lemma_digits_end_at(s, i + 1, j);
    }
}

/// A number of at most two digits for ranks up to 11.
proof fn lemma_rank_digits(v: nat)
    requires
        1 <= v <= 11,
    ensures
        1 <= dec_digits(v).len() <= 2,
{
    if v >= 10 {
        assert(dec_digits(v / 10) == seq![(48 + v / 10) as u8]);
    }
}

/// Reading back the text of a move gives the move's two squares.
pub proof fn lemma_move_text_round_trip(mv: Move, n: int)
    requires
        3 <= n <= 11,
        0 <= mv.spec_from() < n * n,
        0 <= mv.spec_to() < n * n,
    ensures
        spec_parse_move(spec_move_algebraic(mv, n), n) == Some((mv.spec_from(), mv.spec_to())),
{
    let f = mv.spec_from();
    let t = mv.spec_to();
    lemma_square_parts(f, n);
    lemma_square_parts(t, n);
    let d1 = dec_digits((row_of(f, n) + 1) as nat);
    let d2 = dec_digits((row_of(t, n) + 1) as nat);
    lemma_dec_digits_value((row_of(f, n) + 1) as nat);
    lemma_dec_digits_value((row_of(t, n) + 1) as nat);
    lemma_rank_digits((row_of(f, n) + 1) as nat);
    lemma_rank_digits((row_of(t, n) + 1) as nat);
    lemma_parse_dec_digits((row_of(f, n) + 1) as nat, RANK_PARSE_MAX as int);
    lemma_parse_dec_digits((row_of(t, n) + 1) as nat, RANK_PARSE_MAX as int);
    let a = seq![(97 + col_of(f, n)) as u8];
    let b = seq![(97 + col_of(t, n)) as u8];
    let s = spec_move_algebraic(mv, n);
    assert(s =~= a + d1 + b + d2);
    let i: int = 1 + d1.len() as int;
    assert forall|k: int| 1 <= k < i implies is_digit(#[trigger] s[k]) by {
        assert(s[k] == d1[k - 1]);
    }
    assert(s[i] == b[0]);
    lemma_digits_end_at(s, 1, i);
    assert(s.subrange(1, i) =~= d1);
    assert(s.subrange(i + 1, s.len() as int) =~= d2);
}

} // verus!
