//! Scanning decimal numbers in a byte buffer.
use vstd::prelude::*;

use crate::error::{BdecodeError, ErrorView};

verus! {

/// An ASCII decimal digit.
pub open spec fn is_digit(b: u8) -> bool {
    48 <= b <= 57
}

/// The value of a digit byte.
pub open spec fn digit_value(b: u8) -> int {
    b - 48
}

/// `init` followed by the decimal digits `s`: `init * 10^|s| + value(s)`.
pub open spec fn dec_from(init: int, s: Seq<u8>) -> int
    decreases s.len(),
{
    if s.len() == 0 {
        init
    } else {
        dec_from(init, s.drop_last()) * 10 + digit_value(s.last())
    }
}

/// The value of the decimal digits `s`.
pub open spec fn dec(s: Seq<u8>) -> int {
    dec_from(0, s)
}

/// The first position at or after `p` that does not hold a digit other than
/// `delim` (or the length of the buffer).
pub open spec fn run_end(buf: Seq<u8>, p: int, delim: u8) -> int
    decreases buf.len() - p,
{
    if 0 <= p < buf.len() && buf[p] != delim && is_digit(buf[p]) {
        run_end(buf, p + 1, delim)
    } else {
        p
    }
}

/// The characters of ASCII bytes.
pub open spec fn ascii_chars(s: Seq<u8>) -> Seq<char> {
    s.map_values(|b: u8| b as char)
}

/// What `parse_uint` gives: the position of the delimiter (or of the end of
/// the buffer) and the value accumulated on `init`, or an error.
pub open spec fn uint_spec(buf: Seq<u8>, start: int, delim: u8, init: int) -> Result<
    (int, int),
    ErrorView,
> {
    let q = run_end(buf, start, delim);
    let v = dec_from(init, buf.subrange(start, q));
    if v > i64::MAX {
        Err(ErrorView::Overflow(ascii_chars(buf.subrange(start, q))))
    } else if q < buf.len() && buf[q] != delim {
        Err(ErrorView::ExpectedDigit(q))
    } else {
        Ok((q, v))
    }
}

/// What `check_integer` gives for the body of an integer starting at
/// `start` (just past the `'i'`): the position of its closing `'e'`, or an error.
pub open spec fn integer_spec(buf: Seq<u8>, start: int) -> Result<int, ErrorView> {
    if buf.len() == 0 {
        Err(ErrorView::UnexpectedEof(0))
    } else if start >= buf.len() {
        Err(ErrorView::UnexpectedEof(start))
    } else {
        let p = if buf[start] == 45 {
            start + 1
        } else {
            start
        };
        let q = run_end(buf, p, 101);
        if p == buf.len() {
            Err(ErrorView::UnexpectedEof(p))
        } else if q == buf.len() {
            Err(ErrorView::UnexpectedEof(q))
        } else if buf[q] != 101 {
            Err(ErrorView::ExpectedDigit(q))
        } else if q - p > 20 {
            Err(ErrorView::Overflow(ascii_chars(buf.subrange(start, q))))
        } else {
            Ok(q)
        }
    }
}

pub proof fn lemma_run_end(buf: Seq<u8>, p: int, delim: u8)
    requires
        0 <= p <= buf.len(),
    ensures
        p <= run_end(buf, p, delim) <= buf.len(),
        forall|k: int| p <= k < run_end(buf, p, delim) ==> is_digit(#[trigger] buf[k]) && buf[k] != delim,
        run_end(buf, p, delim) < buf.len() ==> (buf[run_end(buf, p, delim)] == delim || !is_digit(buf[run_end(buf, p, delim)])),
    decreases buf.len() - p,
{
    if p < buf.len() && buf[p] != delim && is_digit(buf[p]) {
        lemma_run_end(buf, p + 1, delim);
    }
}

pub proof fn lemma_dec_monotone(init: int, s: Seq<u8>, k: int)
    requires
        init >= 0,
        0 <= k <= s.len(),
        forall|j: int| 0 <= j < s.len() ==> is_digit(#[trigger] s[j]),
    ensures
        0 <= dec_from(init, s.subrange(0, k)) <= dec_from(init, s),
    decreases s.len(),
{
    if s.len() > 0 {
        if k == s.len() {
            assert(s.subrange(0, k) =~= s);
            lemma_dec_monotone(init, s.drop_last(), k - 1);
            assert(s.drop_last().subrange(0, k - 1) =~= s.drop_last());
        } else {
            lemma_dec_monotone(init, s.drop_last(), k);
            assert(s.drop_last().subrange(0, k) =~= s.subrange(0, k));
            lemma_dec_monotone(init, s.drop_last(), s.len() - 1);
            assert(s.drop_last().subrange(0, s.len() - 1) =~= s.drop_last());
        }
    } else {
        assert(s.subrange(0, k) =~= s);
    }
}

/// A run of digits other than `delim`, closed by `delim`, ends there.
pub proof fn lemma_run_end_at(buf: Seq<u8>, a: int, b: int, delim: u8)
    requires
        0 <= a <= b < buf.len(),
        forall|k: int| a <= k < b ==> is_digit(#[trigger] buf[k]) && buf[k] != delim,
        buf[b] == delim,
    ensures
        run_end(buf, a, delim) == b,
    decreases b - a,
{
    if a < b {
        lemma_run_end_at(buf, a + 1, b, delim);
    }
}

/// A run of digits has a non-negative value.
pub proof fn lemma_dec_digits(buf: Seq<u8>, a: int, b: int)
    requires
        0 <= a <= b <= buf.len(),
        forall|k: int| a <= k < b ==> is_digit(#[trigger] buf[k]),
    ensures
        dec(buf.subrange(a, b)) >= 0,
{
    let s = buf.subrange(a, b);
    assert forall|j: int| 0 <= j < s.len() implies is_digit(#[trigger] s[j]) by {
        assert(s[j] == buf[a + j]);
    }
    lemma_dec_monotone(0, s, s.len() as int);
    assert(s.subrange(0, s.len() as int) =~= s);
}

/// Relies on `String::from_utf8`: ASCII bytes are valid UTF-8, and each
/// byte becomes the character of the same code.
#[verifier::external_body]
pub(crate) fn ascii_string(bytes: Vec<u8>) -> (r: String)
    requires
        forall|i: int| 0 <= i < bytes@.len() ==> bytes@[i] < 128,
    ensures
        r@ == ascii_chars(bytes@),
{
    String::from_utf8(bytes).unwrap_or_default()
}

/// The text of a run of ASCII bytes.
pub fn text_of(buffer: &[u8], start: usize, end: usize) -> (r: String)
    requires
        start <= end <= buffer@.len(),
        forall|k: int| start <= k < end ==> buffer@[k] < 128,
    ensures
        r@ == ascii_chars(buffer@.subrange(start as int, end as int)),
{
    let mut v: Vec<u8> = Vec::new();
    let mut i: usize = start;
    while i < end
        invariant
            start <= i <= end <= buffer@.len(),
            forall|k: int| start <= k < end ==> buffer@[k] < 128,
            v@ =~= buffer@.subrange(start as int, i as int),
        decreases end - i,
    {
        v.push(buffer[i]);
        i += 1;
    }
    ascii_string(v)
}

/// Reads the decimal digits from `start` up to `delimiter` or the end of the
/// buffer, accumulating them onto `*val`.
pub fn parse_uint(buffer: &[u8], start: usize, delimiter: u8, val: &mut i64) -> (r: Result<
    usize,
    BdecodeError,
>)
    requires
        *old(val) >= 0,
        start <= buffer@.len(),
    ensures
        match uint_spec(buffer@, start as int, delimiter, *old(val) as int) {
            Ok((q, v)) => r is Ok && r->Ok_0 == q && *final(val) == v,
            Err(e) => r is Err && r->Err_0@ == e,
        },
        r is Ok ==> *final(val) >= 0 && start <= r->Ok_0 <= buffer@.len(),
{
    let ghost init = *val as int;
    let end = buffer.len();
    let mut p: usize = start;
    proof {
        lemma_run_end(buffer@, start as int, delimiter);
    }
    while p < end && buffer[p] != delimiter && is_digit_byte(buffer[p])
        invariant
            start <= p <= end == buffer@.len(),
            run_end(buffer@, p as int, delimiter) == run_end(buffer@, start as int, delimiter),
            *val as int == dec_from(init, buffer@.subrange(start as int, p as int)),
            0 <= *val,
            0 <= init,
            init == *old(val),
        decreases end - p,
    {
        let d = (buffer[p] - 48u8) as i64;
        let ghost s = buffer@.subrange(start as int, p as int + 1);
        assert(s.drop_last() =~= buffer@.subrange(start as int, p as int));
        if *val > (i64::MAX - d) / 10 {
            assert(dec_from(init, s) > i64::MAX) by (nonlinear_arith)
                requires
                    dec_from(init, s) == *val * 10 + d,
                    *val > (i64::MAX - d) / 10,
                    0 <= d <= 9,
            ;
            let q = scan_digits(buffer, p, delimiter);
            proof {
                lemma_run_end(buffer@, p as int + 1, delimiter);
                lemma_run_end(buffer@, start as int, delimiter);
                let full = buffer@.subrange(start as int, q as int);
                lemma_dec_monotone(init, full, p - start + 1);
                assert(full.subrange(0, p - start + 1) =~= s);
            }
            return Err(BdecodeError::Overflow(text_of(buffer, start, q)));
        }
        *val = *val * 10 + d;
        p += 1;
    }
    proof {
        lemma_run_end(buffer@, start as int, delimiter);
    }
    if p < end && buffer[p] != delimiter {
        return Err(BdecodeError::ExpectedDigit(p));
    }
    Ok(p)
}

/// Whether a byte is an ASCII decimal digit.
fn is_digit_byte(b: u8) -> (r: bool)
    ensures
        r == is_digit(b),
{
    48 <= b && b <= 57
}

/// The first position at or after `p` that does not hold a digit other than `delim`.
fn scan_digits(buffer: &[u8], p: usize, delim: u8) -> (r: usize)
    requires
        p <= buffer@.len(),
    ensures
        r == run_end(buffer@, p as int, delim),
{
    let mut q: usize = p;
    while q < buffer.len() && buffer[q] != delim && is_digit_byte(buffer[q])
        invariant
            p <= q <= buffer@.len(),
            run_end(buffer@, q as int, delim) == run_end(buffer@, p as int, delim),
        decreases buffer@.len() - q,
    {
        q += 1;
    }
    q
}

/// Checks the body of an integer, from `start` (just past the `'i'`): an
/// optional `'-'`, at most 20 digits, then `'e'`. Returns the position of the `'e'`.
pub fn check_integer(buffer: &[u8], start: usize) -> (r: Result<usize, BdecodeError>)
    ensures
        match integer_spec(buffer@, start as int) {
            Ok(q) => r is Ok && r->Ok_0 == q,
            Err(e) => r is Err && r->Err_0@ == e,
        },
        r is Ok ==> start <= r->Ok_0 < buffer@.len(),
{
    let end = buffer.len();
    if end == 0 {
        return Err(BdecodeError::UnexpectedEof(0));
    }
    if start >= end {
        return Err(BdecodeError::UnexpectedEof(start));
    }
    let p = if buffer[start] == 45u8 {
        start + 1
    } else {
        start
    };
    if p == end {
        return Err(BdecodeError::UnexpectedEof(p));
    }
    let q = scan_digits(buffer, p, 101u8);
    proof {
        lemma_run_end(buffer@, p as int, 101u8);
    }
    if q == end {
        return Err(BdecodeError::UnexpectedEof(q));
    }
    if buffer[q] != 101u8 {
        return Err(BdecodeError::ExpectedDigit(q));
    }
    if q - p > 20 {
        return Err(BdecodeError::Overflow(text_of(buffer, start, q)));
    }
    Ok(q)
}

} // verus!
