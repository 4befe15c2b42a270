//! What holds of every token stream the tokenizer produces, and of the
//! values read from it.
use vstd::prelude::*;

use crate::error::ErrorView;
use crate::json::{decimal, int_text};
use crate::navigate::{int_digits, int_value, item_count, items, lemma_dict_keys, lemma_items};
use crate::limits::{DEFAULT_DEPTH_LIMIT, DEFAULT_TOKEN_LIMIT};
use crate::scan::{dec, dec_from, digit_value, integer_spec, is_digit, run_end};
use crate::structure::{child_walk, closed_ok, int_digits_start, local_ok, str_len, token_ok};
use crate::token::{BdecodeTokenType, TokenView};
use crate::tokenizer::{after_item, run, step, tokenize_spec, top_is_dict, tv, Frame, ScanState};
use crate::well_formed::lemma_tokenize_wf;

verus! {

/// The position just past the root value of `t`, read from the root token
/// and the buffer: past the root's closing `'e'` for a container, past the
/// payload for a string, past the closing `'e'` for an integer.
pub open spec fn root_end(buf: Seq<u8>, t: Seq<TokenView>) -> int {
    let r = t[0];
    if r.kind.is_container() {
        t[r.next_item - 1].offset + 1int
    } else if r.kind == BdecodeTokenType::Str {
        r.offset + r.header_size + 1 + str_len(buf, r)
    } else if r.kind == BdecodeTokenType::Int {
        run_end(buf, int_digits_start(buf, r), 101) + 1
    } else {
        r.offset + 1int
    }
}

/// The token array of every accepted buffer ends with an end marker whose
/// offset is the position just past the top-level value.
pub proof fn lemma_terminator(buf: Seq<u8>, depth_limit: nat, token_limit: int)
    requires
        tokenize_spec(buf, depth_limit, token_limit) is Ok,
    ensures
        ({
            let t = tokenize_spec(buf, depth_limit, token_limit)->Ok_0;
            &&& t.last().kind == BdecodeTokenType::End
            &&& t.last().offset == root_end(buf, t)
        }),
{
    lemma_tokenize_wf(buf, depth_limit, token_limit);
    let t = tokenize_spec(buf, depth_limit, token_limit)->Ok_0;
    let n = t.len() as int;
    reveal(local_ok);
    assert(t.last() == t[n - 1]);
    if t[0].kind.is_container() {
        assert(token_ok(buf, t, 0));
        assert(closed_ok(t, 0));
        assert(t[0].next_item - 1 == n - 2);
        assert(t[n - 2].kind == BdecodeTokenType::End);
        assert(token_ok(buf, t, n - 2));
        assert(t[n - 1].offset == t[n - 2].offset + 1);
    } else {
        assert(n == 2);
        assert(token_ok(buf, t, 0));
        assert(t[0].kind != BdecodeTokenType::Undefined);
        if t[0].kind == BdecodeTokenType::Int {
            assert(t[1].offset <= buf.len());
            crate::scan::lemma_run_end_at(buf, int_digits_start(buf, t[0]), t[1].offset - 1, 101);
        } else {
            assert(t[0].kind == BdecodeTokenType::Str || t[0].kind == BdecodeTokenType::End);
        }
    }
}

/// Every container token of an accepted buffer skips to its own end marker:
/// an `'e'` before the terminator, at most `MAX_NEXT_ITEM` tokens on; the
/// skip is 2 exactly when the container is empty.
pub proof fn lemma_container_close(buf: Seq<u8>, depth_limit: nat, token_limit: int, c: int)
    requires
        tokenize_spec(buf, depth_limit, token_limit) is Ok,
        0 <= c < tokenize_spec(buf, depth_limit, token_limit)->Ok_0.len(),
        tokenize_spec(buf, depth_limit, token_limit)->Ok_0[c].kind.is_container(),
    ensures
        ({
            let t = tokenize_spec(buf, depth_limit, token_limit)->Ok_0;
            let e = c + t[c].next_item - 1;
            &&& 2 <= t[c].next_item <= crate::limits::MAX_NEXT_ITEM
            &&& e < t.len() - 1
            &&& t[e].kind == BdecodeTokenType::End
            &&& buf[t[e].offset as int] == 101
            &&& (t[c].next_item == 2 <==> t[c + 1].kind == BdecodeTokenType::End)
        }),
{
    lemma_tokenize_wf(buf, depth_limit, token_limit);
    let t = tokenize_spec(buf, depth_limit, token_limit)->Ok_0;
    assert(c < t.len() - 1);
    assert(closed_ok(t, c));
    let e = c + t[c].next_item - 1;
    assert(token_ok(buf, t, e));
    reveal(local_ok);
    if t[c + 1].kind == BdecodeTokenType::End && c + 1 != e {
        assert(crate::structure::walk(t, c + 1, e) is None);
    }
}

/// Every string token of an accepted buffer spans its length prefix, the
/// `':'` and its payload, up to the next token's offset.
pub proof fn lemma_string_span(buf: Seq<u8>, depth_limit: nat, token_limit: int, s: int)
    requires
        tokenize_spec(buf, depth_limit, token_limit) is Ok,
        0 <= s < tokenize_spec(buf, depth_limit, token_limit)->Ok_0.len(),
        tokenize_spec(buf, depth_limit, token_limit)->Ok_0[s].kind == BdecodeTokenType::Str,
    ensures
        ({
            let t = tokenize_spec(buf, depth_limit, token_limit)->Ok_0;
            &&& s + 1 < t.len()
            &&& t[s + 1].offset - t[s].offset == t[s].header_size + 1 + str_len(buf, t[s])
            &&& buf[(t[s].offset + t[s].header_size) as int] == 58
        }),
{
    lemma_tokenize_wf(buf, depth_limit, token_limit);
    let t = tokenize_spec(buf, depth_limit, token_limit)->Ok_0;
    assert(s < t.len() - 1);
    assert(token_ok(buf, t, s));
    reveal(local_ok);
}

/// Every dictionary of an accepted buffer has twice as many items, walked by
/// skip distance from its first item to its end marker, as key-value pairs;
/// every key is a string, followed inside the dictionary by its value, which
/// is not an end marker.
pub proof fn lemma_dict_items(buf: Seq<u8>, depth_limit: nat, token_limit: int, d: int)
    requires
        tokenize_spec(buf, depth_limit, token_limit) is Ok,
        0 <= d < tokenize_spec(buf, depth_limit, token_limit)->Ok_0.len(),
        tokenize_spec(buf, depth_limit, token_limit)->Ok_0[d].kind == BdecodeTokenType::Dict,
    ensures
        ({
            let t = tokenize_spec(buf, depth_limit, token_limit)->Ok_0;
            &&& 2 * item_count(t, d) == child_walk(t, d + 1).len()
            &&& items(t, d).len() == item_count(t, d)
            &&& forall|j: int| 0 <= j < items(t, d).len() ==> {
                &&& t[#[trigger] items(t, d)[j]].kind == BdecodeTokenType::Str
                &&& items(t, d)[j] + 1 < d + t[d].next_item - 1
                &&& t[items(t, d)[j] + 1].kind != BdecodeTokenType::End
            }
        }),
{
    lemma_tokenize_wf(buf, depth_limit, token_limit);
    let t = tokenize_spec(buf, depth_limit, token_limit)->Ok_0;
    lemma_items(buf, t, d);
    lemma_dict_keys(buf, t, d);
}

/// A buffer longer than the largest offset is refused before any parsing;
/// one of that length or shorter is refused only by what its bytes hold.
pub proof fn lemma_buffer_length(buf: Seq<u8>, depth_limit: nat, token_limit: int)
    ensures
        buf.len() > crate::limits::BUFFER_MAX_OFFSET ==> tokenize_spec(buf, depth_limit, token_limit)
            == Err::<Seq<TokenView>, ErrorView>(ErrorView::LimitExceeded(buf.len() as int)),
        0 < buf.len() <= crate::limits::BUFFER_MAX_OFFSET ==> tokenize_spec(buf, depth_limit, token_limit)
            == run(buf, depth_limit, ScanState { pos: 0, tokens: seq![], stack: seq![], budget: token_limit }),
{
}

/// `10^k`.
pub open spec fn pow10(k: nat) -> nat
    decreases k,
{
    if k == 0 {
        1
    } else {
        10 * pow10((k - 1) as nat)
    }
}

/// The decimal digits of `m` are digits, and read back as `m`.
pub proof fn lemma_decimal(m: nat)
    ensures
        decimal(m).len() >= 1,
        forall|k: int| 0 <= k < decimal(m).len() ==> is_digit(#[trigger] decimal(m)[k]),
        dec(decimal(m)) == m,
    decreases m,
{
    if m >= 10 {
        lemma_decimal(m / 10);
        let s = decimal(m / 10);
        let s2 = decimal(m);
        assert(s2 == s.push((48 + m % 10) as u8));
        assert(s2.drop_last() =~= s);
        assert forall|k: int| 0 <= k < s2.len() implies is_digit(#[trigger] s2[k]) by {
            if k < s.len() {
                assert(s2[k] == s[k]);
            }
        }
        assert(dec_from(0, s2) == dec_from(0, s) * 10 + digit_value(s2.last()));
        assert(digit_value(s2.last()) == m % 10);
        assert((m / 10) * 10 + m % 10 == m);
        assert(dec(s2) == m);
    } else {
        let s2 = decimal(m);
        assert(s2 =~= seq![(48 + m) as u8]);
        assert(s2.drop_last() =~= Seq::<u8>::empty());
        assert(dec_from(0, Seq::<u8>::empty()) == 0);
        assert(digit_value(s2.last()) == m);
        assert(dec_from(0, s2) == dec_from(0, s2.drop_last()) * 10 + digit_value(s2.last()));
    }
}

/// Below `10^k`, a number has at most `k` decimal digits.
pub proof fn lemma_decimal_len(m: nat, k: nat)
    requires
        1 <= k,
        m < pow10(k),
    ensures
        decimal(m).len() <= k,
    decreases m,
{
    if m >= 10 {
        assert(k >= 2) by {
            if k == 1 {
                assert(pow10(1) == 10 * pow10(0));
            }
        }
        assert(pow10(k) == 10 * pow10((k - 1) as nat));
        assert(m / 10 < pow10((k - 1) as nat));
        lemma_decimal_len(m / 10, (k - 1) as nat);
    }
}

/// The buffer `i<n>e`: an integer in decimal between `'i'` and `'e'`.
pub open spec fn int_buffer(n: int) -> Seq<u8> {
    seq![105u8] + int_text(n) + seq![101u8]
}

/// Every integer of magnitude at most `10^18`, written as `i<n>e`, parses
/// with the default limits to a single integer token whose value is `n`.
pub proof fn lemma_int_round_trip(n: int)
    requires
        -(pow10(18) as int) <= n <= pow10(18),
    ensures
        ({
            let b = int_buffer(n);
            let r = tokenize_spec(b, DEFAULT_DEPTH_LIMIT as nat, DEFAULT_TOKEN_LIMIT as int);
            &&& r is Ok
            &&& r->Ok_0[0].kind == BdecodeTokenType::Int
            &&& int_value(b, r->Ok_0, 0) == Ok::<int, ErrorView>(n)
        }),
{
    let m: nat = if n < 0 { (-n) as nat } else { n as nat };
    lemma_decimal(m);
    reveal_with_fuel(pow10, 20);
    assert(pow10(18) == 1000000000000000000);
    assert(pow10(19) == 10000000000000000000);
    lemma_decimal_len(m, 19);
    let digits = decimal(m);
    let b = int_buffer(n);
    let sign: int = if n < 0 { 1 } else { 0 };
    let d = 1 + sign;
    let e = b.len() - 1;
    assert(int_text(n) == (if n < 0 { seq![45u8] + digits } else { digits }));
    assert(b.len() == digits.len() + sign + 2);
    assert forall|k: int| d <= k < e implies is_digit(#[trigger] b[k]) && b[k] != 101 by {
        assert(b[k] == digits[k - d]);
    }
    assert(b[e] == 101);
    assert(b[0] == 105);
    if n < 0 {
        assert(b[1] == 45);
    } else {
        assert(b[1] == digits[0]);
    }
    crate::scan::lemma_run_end_at(b, d, e, 101);
    assert(integer_spec(b, 1) == Ok::<int, ErrorView>(e));
    let s0 = ScanState { pos: 0, tokens: seq![], stack: seq![], budget: DEFAULT_TOKEN_LIMIT as int };
    let s1 = ScanState {
        pos: (e + 1) as nat,
        tokens: seq![tv(0, BdecodeTokenType::Int, 1, 0)],
        stack: seq![],
        budget: DEFAULT_TOKEN_LIMIT as int - 1,
    };
    assert(step(b, DEFAULT_DEPTH_LIMIT as nat, s0) == Ok::<ScanState, ErrorView>(s1)) by {
        reveal(step);
        assert(seq![].push(tv(0, BdecodeTokenType::Int, 1, 0)) =~= seq![tv(0, BdecodeTokenType::Int, 1, 0)]);
    }
    let t = seq![tv(0, BdecodeTokenType::Int, 1, 0), tv((e + 1) as nat, BdecodeTokenType::End, 1, 0)];
    assert(s1.tokens.push(tv(s1.pos, BdecodeTokenType::End, 1, 0)) =~= t);
    assert(tokenize_spec(b, DEFAULT_DEPTH_LIMIT as nat, DEFAULT_TOKEN_LIMIT as int) == Ok::<Seq<TokenView>, ErrorView>(t));
    assert(int_digits_start(b, t[0]) == d);
    assert(int_digits(b, t, 0) =~= digits);
}

/// `k` nested lists: `k` times `'l'`, then `k` times `'e'`.
pub open spec fn nested_lists(k: nat) -> Seq<u8> {
    Seq::new(k, |_i: int| 108u8) + Seq::new(k, |_i: int| 101u8)
}

/// The scan of `nested_lists(k)` after opening `j` lists.
spec fn opened(s: ScanState, k: nat, j: nat, token_limit: int) -> bool {
    &&& s.pos == j
    &&& s.tokens.len() == j
    &&& s.stack.len() == j
    &&& forall|i: int| 0 <= i < j ==> (#[trigger] s.stack[i]).token == i
    &&& forall|i: int| 0 <= i < j ==> (#[trigger] s.tokens[i]).kind == BdecodeTokenType::List
    &&& s.budget == token_limit - j
}

/// The scan of `nested_lists(k)` after opening all `k` lists and closing `c` of them.
spec fn closing(s: ScanState, k: nat, c: nat, token_limit: int) -> bool {
    &&& s.pos == k + c
    &&& s.tokens.len() == k + c
    &&& s.stack.len() == k - c
    &&& forall|i: int| 0 <= i < k - c ==> (#[trigger] s.stack[i]).token == i
    &&& forall|i: int| 0 <= i < k - c ==> (#[trigger] s.tokens[i]).kind == BdecodeTokenType::List
    &&& s.budget == token_limit - k - c
}

proof fn lemma_closing_run(k: nat, c: nat, depth_limit: nat, token_limit: int, s: ScanState)
    requires
        c < k < depth_limit,
        2 * k <= crate::limits::BUFFER_MAX_OFFSET,
        token_limit >= 2 * k,
        closing(s, k, c, token_limit),
    ensures
        run(nested_lists(k), depth_limit, s) is Ok,
    decreases k - c,
{
    let b = nested_lists(k);
    let top = k - c - 1;
    assert(b[(k + c) as int] == 101);
    assert(s.stack.last().token == top);
    assert(!top_is_dict(s));
    let closed = s.tokens.push(tv(s.pos, BdecodeTokenType::End, 1, 0));
    let next = closed.len() - top;
    let s2 = ScanState {
        pos: s.pos + 1,
        tokens: closed.update(top, TokenView { next_item: next as nat, ..closed[top] }),
        stack: s.stack.drop_last(),
        budget: s.budget - 1,
    };
    assert(step(b, depth_limit, s) == Ok::<ScanState, ErrorView>(s2)) by {
        reveal(step);
    }
    if c + 1 < k {
        assert forall|i: int| 0 <= i < k - (c + 1) implies (#[trigger] s2.tokens[i]).kind == BdecodeTokenType::List by {
            assert(s2.tokens[i].kind == s.tokens[i].kind);
        }
        assert forall|i: int| 0 <= i < k - (c + 1) implies (#[trigger] s2.stack[i]).token == i by {
            assert(s2.stack[i] == s.stack[i]);
        }
        lemma_closing_run(k, c + 1, depth_limit, token_limit, s2);
    }
}

proof fn lemma_opening_run(k: nat, j: nat, depth_limit: nat, token_limit: int, s: ScanState)
    requires
        1 <= k,
        j <= k,
        j <= depth_limit,
        2 * k <= crate::limits::BUFFER_MAX_OFFSET,
        token_limit >= 2 * k,
        opened(s, k, j, token_limit),
    ensures
        k < depth_limit ==> run(nested_lists(k), depth_limit, s) is Ok,
        k >= depth_limit ==> run(nested_lists(k), depth_limit, s) == Err::<Seq<TokenView>, ErrorView>(
            ErrorView::DepthExceeded(depth_limit as int),
        ),
    decreases k - j,
{
    let b = nested_lists(k);
    if j == depth_limit {
        assert(step(b, depth_limit, s) == Err::<ScanState, ErrorView>(ErrorView::DepthExceeded(depth_limit as int))) by {
            reveal(step);
        }
    } else if j == k {
        assert(closing(s, k, 0, token_limit));
        lemma_closing_run(k, 0, depth_limit, token_limit, s);
    } else {
        assert(b[j as int] == 108);
        if j > 0 {
            assert(s.stack.last().token == j - 1);
        }
        assert(!top_is_dict(s));
        assert(after_item(s) == s.stack);
        let s2 = ScanState {
            pos: s.pos + 1,
            tokens: s.tokens.push(tv(s.pos, BdecodeTokenType::List, 0, 0)),
            stack: s.stack.push(Frame { token: s.tokens.len(), expecting_value: false }),
            budget: s.budget - 1,
        };
        assert(step(b, depth_limit, s) == Ok::<ScanState, ErrorView>(s2)) by {
            reveal(step);
        }
        assert forall|i: int| 0 <= i < j + 1 implies (#[trigger] s2.tokens[i]).kind == BdecodeTokenType::List by {
            if i < j {
                assert(s2.tokens[i] == s.tokens[i]);
            }
        }
        assert forall|i: int| 0 <= i < j + 1 implies (#[trigger] s2.stack[i]).token == i by {
            if i < j {
                assert(s2.stack[i] == s.stack[i]);
            }
        }
        lemma_opening_run(k, j + 1, depth_limit, token_limit, s2);
    }
}

/// `k` nested lists parse when `k` is below the depth limit, and fail with
/// `DepthExceeded` when `k` reaches it or goes deeper (given tokens enough
/// for the `2k` markers).
pub proof fn lemma_depth_limit(k: nat, depth_limit: nat, token_limit: int)
    requires
        1 <= k,
        2 * k <= crate::limits::BUFFER_MAX_OFFSET,
        token_limit >= 2 * k,
    ensures
        k < depth_limit ==> tokenize_spec(nested_lists(k), depth_limit, token_limit) is Ok,
        k >= depth_limit ==> tokenize_spec(nested_lists(k), depth_limit, token_limit) == Err::<
            Seq<TokenView>,
            ErrorView,
        >(ErrorView::DepthExceeded(depth_limit as int)),
{
    let s = ScanState { pos: 0, tokens: seq![], stack: seq![], budget: token_limit };
    assert(opened(s, k, 0, token_limit));
    lemma_opening_run(k, 0, depth_limit, token_limit, s);
}

/// When the token budget runs out, the error reports the configured limit.
pub proof fn lemma_token_limit_reported(buf: Seq<u8>, depth_limit: nat, token_limit: int)
    requires
        token_limit >= 0,
        buf.len() <= crate::limits::BUFFER_MAX_OFFSET,
    ensures
        tokenize_spec(buf, depth_limit, token_limit) is Err && tokenize_spec(buf, depth_limit, token_limit)->Err_0 is LimitExceeded ==> {
            let n = tokenize_spec(buf, depth_limit, token_limit)->Err_0->LimitExceeded_0;
            ||| n == token_limit
            ||| n == crate::limits::MAX_NEXT_ITEM
            ||| n == crate::limits::MAX_HEADER_SIZE
        },
{
    if buf.len() > 0 {
        let s = ScanState { pos: 0, tokens: seq![], stack: seq![], budget: token_limit };
        assert(crate::well_formed::state_inv(buf, s));
        crate::well_formed::lemma_run_limit(buf, depth_limit, token_limit, s);
    }
}

/// A scan that holds as many open containers as the depth limit fails there,
/// whatever bytes follow.
pub proof fn lemma_depth_reached(buf: Seq<u8>, depth_limit: nat, s: ScanState)
    requires
        s.stack.len() >= depth_limit,
    ensures
        run(buf, depth_limit, s) == Err::<Seq<TokenView>, ErrorView>(ErrorView::DepthExceeded(depth_limit as int)),
{
    reveal(step);
}

} // verus!
