//! Every token stream that the tokenizer produces is well formed.
use vstd::prelude::*;

use crate::error::ErrorView;
use crate::scan::{lemma_dec_monotone, lemma_run_end, run_end, uint_spec};
use crate::structure::{
    token_ok, closed_ok, keys_are_strings, lemma_walk_append, lemma_walk_frame, local_ok, tokens_wf,
    walk,
};
use crate::token::{BdecodeTokenType, TokenView};
use crate::tokenizer::{after_item, run, step, tokenize_spec, top_is_dict, tv, Frame, ScanState};

verus! {

/// Where the source of token `i` ends: the next token's offset, or the cursor.
pub open spec fn source_end(t: Seq<TokenView>, i: int, pos: int) -> int {
    if i + 1 < t.len() {
        t[i + 1].offset as int
    } else {
        pos
    }
}

/// Token `i` agrees with the buffer up to where its source ends.
pub open spec fn ok_before(buf: Seq<u8>, t: Seq<TokenView>, i: int, pos: int) -> bool {
    local_ok(buf, t[i], source_end(t, i, pos))
}

/// Where the items of open frame `k` are walked to: the next open frame, or
/// the end of the tokens.
pub open spec fn frame_bound(t: Seq<TokenView>, st: Seq<Frame>, k: int) -> int {
    if k + 1 < st.len() {
        st[k + 1].token as int
    } else {
        t.len() as int
    }
}

/// An open frame: an open container whose items so far are walked up to the
/// next open frame, with the dictionary parity recorded in the frame.
pub open spec fn frame_ok(t: Seq<TokenView>, st: Seq<Frame>, k: int) -> bool {
    let f = st[k];
    let w = walk(t, f.token + 1int, frame_bound(t, st, k));
    &&& f.token < t.len()
    &&& t[f.token as int].kind.is_container()
    &&& t[f.token as int].next_item == 0
    &&& w is Some
    &&& t[f.token as int].kind == BdecodeTokenType::Dict ==> {
        &&& keys_are_strings(t, w->Some_0)
        &&& if k + 1 < st.len() {
            w->Some_0.len() % 2 == 1 && !f.expecting_value
        } else {
            f.expecting_value == (w->Some_0.len() % 2 == 1)
        }
    }
}

/// Nothing open remains: the root is a single leaf, or a closed container
/// spanning all the tokens.
pub open spec fn complete(t: Seq<TokenView>) -> bool {
    t.len() > 0 ==> if t[0].kind.is_container() {
        t[0].next_item == t.len()
    } else {
        t.len() == 1
    }
}

/// What holds of the scan state between two steps.
pub open spec fn state_inv(buf: Seq<u8>, s: ScanState) -> bool {
    let t = s.tokens;
    let st = s.stack;
    &&& s.pos <= buf.len()
    &&& t.len() <= s.pos
    &&& forall|i: int| 0 <= i < t.len() ==> (#[trigger] t[i]).offset <= s.pos
    &&& forall|i: int| 0 <= i < t.len() ==> #[trigger] ok_before(buf, t, i, s.pos as int)
    &&& forall|i: int|
        0 <= i < t.len() && (#[trigger] t[i]).kind.is_container() && t[i].next_item != 0 ==> closed_ok(t, i)
    &&& forall|i: int|
        0 <= i < t.len() && (#[trigger] t[i]).kind.is_container() && t[i].next_item == 0 ==> exists|k: int|
            0 <= k < st.len() && (#[trigger] st[k]).token == i
    &&& forall|k: int| 0 <= k < st.len() ==> #[trigger] frame_ok(t, st, k)
    &&& forall|k: int, j: int| 0 <= k < j < st.len() ==> (#[trigger] st[k]).token < (#[trigger] st[j]).token
    &&& forall|i: int, k: int|
        0 <= i < t.len() && 0 <= k < st.len() && (#[trigger] t[i]).kind.is_container() && t[i].next_item != 0
            ==> !(i <= (#[trigger] st[k]).token < i + t[i].next_item)
    &&& st.len() > 0 ==> st[0].token == 0
    &&& st.len() == 0 ==> complete(t)
}

/// The facts of the string or integer token that a leaf step appends.
proof fn lemma_leaf_token(buf: Seq<u8>, depth_limit: nat, s: ScanState)
    requires
        state_inv(buf, s),
        step(buf, depth_limit, s) is Ok,
        buf[s.pos as int] != 100 && buf[s.pos as int] != 108 && buf[s.pos as int] != 101,
    ensures
        ({
            let s2 = step(buf, depth_limit, s)->Ok_0;
            let x = s2.tokens[s.tokens.len() as int];
            &&& s2.tokens == s.tokens.push(x)
            &&& s2.stack == after_item(s)
            &&& x.offset == s.pos
            &&& local_ok(buf, x, s2.pos as int)
            &&& x.next_item == 1
            &&& (x.kind == BdecodeTokenType::Str || x.kind == BdecodeTokenType::Int)
            &&& x.kind == BdecodeTokenType::Int ==> buf[s.pos as int] == 105
            &&& (top_is_dict(s) && !s.stack.last().expecting_value) ==> x.kind == BdecodeTokenType::Str
            &&& s.pos < s2.pos <= buf.len()
        }),
{
    reveal(step);
    reveal(local_ok);
    let p = s.pos as int;
    let s2 = step(buf, depth_limit, s)->Ok_0;
    if buf[p] == 105 {
        let d = if buf[p + 1] == 45 { p + 2 } else { p + 1 };
        lemma_run_end(buf, d, 101);
        crate::tokenizer::lemma_step_advances(buf, depth_limit, s);
    } else {
        crate::tokenizer::lemma_step_advances(buf, depth_limit, s);
        lemma_run_end(buf, p, 58);
        lemma_run_end(buf, p + 1, 58);
        let q = run_end(buf, p, 58);
        assert(q == run_end(buf, p + 1, 58));
        let x = s2.tokens[s.tokens.len() as int];
        assert(buf.subrange(x.offset as int, (x.offset + x.header_size) as int) =~= buf.subrange(p, q));
        lemma_dec_monotone(0, buf.subrange(p, q), q - p);
        assert(buf.subrange(p, q).subrange(0, q - p) =~= buf.subrange(p, q));
        assert(uint_spec(buf, p, 58, 0) == Ok::<(int, int), ErrorView>((q, crate::scan::dec(buf.subrange(p, q)))));
        assert(s2.pos == q + 1 + crate::scan::dec(buf.subrange(p, q)));
    }
}

/// A closed container stays closed where the tokens it spans are unchanged.
proof fn lemma_closed_frame(t: Seq<TokenView>, t2: Seq<TokenView>, i: int)
    requires
        0 <= i < t.len(),
        closed_ok(t, i),
        t.len() <= t2.len(),
        forall|j: int| i <= j < i + t[i].next_item ==> t2[j] == t[j],
    ensures
        closed_ok(t2, i),
{
    let c = i + t[i].next_item - 1;
    assert(t2[i] == t[i]);
    assert(t2[c] == t[c]);
    lemma_walk_frame(t, t2, i + 1, c);
    crate::structure::lemma_walk_bounds(t, i + 1, c);
    if t[i].kind == BdecodeTokenType::Dict {
        let w = walk(t, i + 1, c)->Some_0;
        assert forall|j: int| 0 <= j < w.len() && j % 2 == 0 implies t2[#[trigger] w[j]].kind == BdecodeTokenType::Str by {
            assert(t2[w[j]] == t[w[j]]);
        }
    }
}

proof fn lemma_open_shape(buf: Seq<u8>, depth_limit: nat, s: ScanState)
    requires
        step(buf, depth_limit, s) is Ok,
        buf[s.pos as int] == 100 || buf[s.pos as int] == 108,
    ensures
        ({
            let s2 = step(buf, depth_limit, s)->Ok_0;
            let kind = if buf[s.pos as int] == 100 {
                BdecodeTokenType::Dict
            } else {
                BdecodeTokenType::List
            };
            &&& s2.tokens == s.tokens.push(tv(s.pos, kind, 0, 0))
            &&& s2.stack == after_item(s).push(Frame { token: s.tokens.len(), expecting_value: false })
            &&& s2.pos == s.pos + 1
            &&& s.pos < buf.len()
            &&& top_is_dict(s) ==> s.stack.last().expecting_value
        }),
{
    reveal(step);
}

proof fn lemma_close_shape(buf: Seq<u8>, depth_limit: nat, s: ScanState)
    requires
        step(buf, depth_limit, s) is Ok,
        buf[s.pos as int] == 101,
    ensures
        ({
            let s2 = step(buf, depth_limit, s)->Ok_0;
            let top = s.stack.last().token as int;
            let closed = s.tokens.push(tv(s.pos, BdecodeTokenType::End, 1, 0));
            &&& s.stack.len() > 0
            &&& !(top_is_dict(s) && s.stack.last().expecting_value)
            &&& closed.len() - top <= crate::limits::MAX_NEXT_ITEM
            &&& s2.tokens == closed.update(top, TokenView { next_item: (closed.len() - top) as nat, ..closed[top] })
            &&& s2.stack == s.stack.drop_last()
            &&& s2.pos == s.pos + 1
            &&& s.pos < buf.len()
        }),
{
    reveal(step);
}

proof fn lemma_leaf_step(buf: Seq<u8>, depth_limit: nat, s: ScanState)
    requires
        state_inv(buf, s),
        s.stack.len() == 0 ==> s.tokens.len() == 0,
        step(buf, depth_limit, s) is Ok,
        buf[s.pos as int] != 100 && buf[s.pos as int] != 108 && buf[s.pos as int] != 101,
    ensures
        state_inv(buf, step(buf, depth_limit, s)->Ok_0),
{
    let p = s.pos as int;
    let s2 = step(buf, depth_limit, s)->Ok_0;
    lemma_leaf_token(buf, depth_limit, s);
    let t = s.tokens;
    let st = s.stack;
    let n = t.len() as int;
    let t2 = s2.tokens;
    let st2 = s2.stack;
    let x = t2[n];
    assert forall|i: int| 0 <= i < t2.len() implies #[trigger] ok_before(buf, t2, i, s2.pos as int) by {
        if i < n {
            assert(t2[i] == t[i]);
            assert(ok_before(buf, t, i, p));
        }
    }
    assert forall|i: int| 0 <= i < t2.len() && (#[trigger] t2[i]).kind.is_container() && t2[i].next_item != 0 implies closed_ok(t2, i) by {
        assert(t2[i] == t[i]);
        assert(closed_ok(t, i));
        lemma_closed_frame(t, t2, i);
    }
    assert forall|i: int| 0 <= i < t2.len() && (#[trigger] t2[i]).kind.is_container() && t2[i].next_item == 0 implies exists|k: int| 0 <= k < st2.len() && (#[trigger] st2[k]).token == i by {
        assert(t2[i] == t[i]);
        let k = choose|k: int| 0 <= k < st.len() && (#[trigger] st[k]).token == i;
        assert(st2[k].token == i);
    }
    assert forall|k: int| 0 <= k < st2.len() implies #[trigger] frame_ok(t2, st2, k) by {
        assert(frame_ok(t, st, k));
        let f = st[k].token as int;
        assert(st2[k].token == f);
        assert(t2[f] == t[f]);
        let b = frame_bound(t, st, k);
        if k + 1 < st.len() {
            assert(st2[k + 1].token == st[k + 1].token);
            assert(frame_ok(t, st, k + 1));
            lemma_walk_frame(t, t2, f + 1, b);
            crate::structure::lemma_walk_bounds(t, f + 1, b);
            assert(st2[k] == st[k]);
            let w = walk(t, f + 1, b)->Some_0;
            if t[f].kind == BdecodeTokenType::Dict {
                assert forall|j: int| 0 <= j < w.len() && j % 2 == 0 implies t2[#[trigger] w[j]].kind == BdecodeTokenType::Str by {
                    assert(t2[w[j]] == t[w[j]]);
                }
            }
        } else {
            lemma_walk_frame(t, t2, f + 1, n);
            crate::structure::lemma_walk_bounds(t, f + 1, n);
            lemma_walk_append(t2, f + 1, n);
            let w = walk(t, f + 1, n)->Some_0;
            let w2 = w.push(n);
            assert(walk(t2, f + 1, n + 1) == Some(w2));
            if t[f].kind == BdecodeTokenType::Dict {
                assert(top_is_dict(s));
                assert forall|j: int| 0 <= j < w2.len() && j % 2 == 0 implies t2[#[trigger] w2[j]].kind == BdecodeTokenType::Str by {
                    if j < w.len() {
                        assert(w2[j] == w[j]);
                        assert(t2[w[j]] == t[w[j]]);
                    } else {
                        assert(w2[j] == n);
                        assert(!st.last().expecting_value);
                    }
                }
            }
        }
    }
    assert forall|k: int, j: int| 0 <= k < j < st2.len() implies (#[trigger] st2[k]).token < (#[trigger] st2[j]).token by {
        assert(st2[k].token == st[k].token);
        assert(st2[j].token == st[j].token);
    }
    assert forall|i: int, k: int|
        0 <= i < t2.len() && 0 <= k < st2.len() && (#[trigger] t2[i]).kind.is_container() && t2[i].next_item != 0
        implies !(i <= (#[trigger] st2[k]).token < i + t2[i].next_item) by {
        assert(t2[i] == t[i]);
        assert(st2[k].token == st[k].token);
    }
    assert forall|i: int| 0 <= i < t2.len() implies (#[trigger] t2[i]).offset <= s2.pos by {
        if i < n {
            assert(t2[i] == t[i]);
        }
    }
    if st2.len() > 0 {
        assert(st2[0].token == st[0].token);
    }
}

proof fn lemma_open_step(buf: Seq<u8>, depth_limit: nat, s: ScanState)
    requires
        state_inv(buf, s),
        s.stack.len() == 0 ==> s.tokens.len() == 0,
        step(buf, depth_limit, s) is Ok,
        buf[s.pos as int] == 100 || buf[s.pos as int] == 108,
    ensures
        state_inv(buf, step(buf, depth_limit, s)->Ok_0),
{
    let p = s.pos as int;
    let s2 = step(buf, depth_limit, s)->Ok_0;
    let t = s.tokens;
    let st = s.stack;
    let n = t.len() as int;
    let t2 = s2.tokens;
    let st2 = s2.stack;
    let mid = after_item(s);
    lemma_open_shape(buf, depth_limit, s);
    assert(local_ok(buf, t2[n], s2.pos as int)) by {
        reveal(local_ok);
    }
    assert forall|i: int| 0 <= i < t2.len() implies #[trigger] ok_before(buf, t2, i, s2.pos as int) by {
        if i < n {
            assert(t2[i] == t[i]);
            assert(ok_before(buf, t, i, p));
        }
    }
    assert forall|i: int| 0 <= i < t2.len() && (#[trigger] t2[i]).kind.is_container() && t2[i].next_item != 0 implies closed_ok(t2, i) by {
        assert(t2[i] == t[i]);
        assert(closed_ok(t, i));
        lemma_closed_frame(t, t2, i);
    }
    assert forall|i: int| 0 <= i < t2.len() && (#[trigger] t2[i]).kind.is_container() && t2[i].next_item == 0 implies exists|k: int| 0 <= k < st2.len() && (#[trigger] st2[k]).token == i by {
        if i < n {
            assert(t2[i] == t[i]);
            let k = choose|k: int| 0 <= k < st.len() && (#[trigger] st[k]).token == i;
            assert(st2[k].token == i);
        } else {
            assert(st2[st.len() as int].token == i);
        }
    }
    assert forall|k: int| 0 <= k < st2.len() implies #[trigger] frame_ok(t2, st2, k) by {
        if k < st.len() {
            assert(frame_ok(t, st, k));
            let f = st[k].token as int;
            assert(st2[k].token == f);
            assert(t2[f] == t[f]);
            let b = frame_bound(t, st, k);
            if k + 1 < st.len() {
                assert(frame_ok(t, st, k + 1));
            }
            assert(frame_bound(t2, st2, k) == b);
            lemma_walk_frame(t, t2, f + 1, b);
            crate::structure::lemma_walk_bounds(t, f + 1, b);
            let w = walk(t, f + 1, b)->Some_0;
            if t[f].kind == BdecodeTokenType::Dict {
                assert forall|j: int| 0 <= j < w.len() && j % 2 == 0 implies t2[#[trigger] w[j]].kind == BdecodeTokenType::Str by {
                    assert(t2[w[j]] == t[w[j]]);
                }
                if k + 1 == st.len() {
                    assert(top_is_dict(s));
                    assert(st.last().expecting_value);
                }
            }
        } else {
            assert(walk(t2, n + 1, n + 1) == Some(Seq::<int>::empty()));
        }
    }
    assert forall|k: int, j: int| 0 <= k < j < st2.len() implies (#[trigger] st2[k]).token < (#[trigger] st2[j]).token by {
        assert(st2[k].token == st[k].token);
        if j < st.len() {
            assert(st2[j].token == st[j].token);
        } else {
            assert(frame_ok(t, st, k));
        }
    }
    assert forall|i: int, k: int|
        0 <= i < t2.len() && 0 <= k < st2.len() && (#[trigger] t2[i]).kind.is_container() && t2[i].next_item != 0
        implies !(i <= (#[trigger] st2[k]).token < i + t2[i].next_item) by {
        assert(t2[i] == t[i]);
        assert(closed_ok(t, i));
        if k < st.len() {
            assert(st2[k].token == st[k].token);
        }
    }
    assert forall|i: int| 0 <= i < t2.len() implies (#[trigger] t2[i]).offset <= s2.pos by {
        if i < n {
            assert(t2[i] == t[i]);
        }
    }
    if st.len() > 0 {
        assert(st2[0].token == st[0].token);
    }
}

#[verifier::rlimit(60)]
proof fn lemma_close_step(buf: Seq<u8>, depth_limit: nat, s: ScanState)
    requires
        state_inv(buf, s),
        step(buf, depth_limit, s) is Ok,
        buf[s.pos as int] == 101,
    ensures
        state_inv(buf, step(buf, depth_limit, s)->Ok_0),
{
    let p = s.pos as int;
    let s2 = step(buf, depth_limit, s)->Ok_0;
    let t = s.tokens;
    let st = s.stack;
    let n = t.len() as int;
    let t2 = s2.tokens;
    let st2 = s2.stack;
    let last = st.len() - 1;
    let top = st[last].token as int;
    lemma_close_shape(buf, depth_limit, s);
    assert(local_ok(buf, tv(s.pos, BdecodeTokenType::End, 1, 0), s2.pos as int)) by {
        reveal(local_ok);
    }
    assert(frame_ok(t, st, last));
    let nx = n + 1 - top;
    assert(t2.len() == n + 1);
    assert(t2[n] == tv(s.pos, BdecodeTokenType::End, 1, 0));
    assert(t2[top] == TokenView { next_item: nx as nat, ..t[top] });
    assert(forall|i: int| 0 <= i < n && i != top ==> t2[i] == t[i]);
    assert(st2 =~= st.drop_last());
    assert forall|i: int| 0 <= i < t2.len() implies #[trigger] ok_before(buf, t2, i, s2.pos as int) by {
        if i < n {
            assert(ok_before(buf, t, i, p));
            if i + 1 < n {
                assert(t2[i + 1].offset == t[i + 1].offset);
            }
            if i == top {
                assert(ok_before(buf, t2, i, s2.pos as int)) by {
                    reveal(local_ok);
                }
            }
        }
    }
    assert forall|i: int| 0 <= i < t2.len() && (#[trigger] t2[i]).kind.is_container() && t2[i].next_item != 0 implies closed_ok(t2, i) by {
        if i == top {
            let w = walk(t, top + 1, n);
            lemma_walk_frame(t, t2, top + 1, n);
            crate::structure::lemma_walk_bounds(t, top + 1, n);
            if t[top].kind == BdecodeTokenType::Dict {
                assert(top_is_dict(s));
                let ws = w->Some_0;
                assert forall|j: int| 0 <= j < ws.len() && j % 2 == 0 implies t2[#[trigger] ws[j]].kind == BdecodeTokenType::Str by {
                    assert(t2[ws[j]] == t[ws[j]]);
                }
            }
        } else {
            assert(t2[i] == t[i]);
            assert(closed_ok(t, i));
            assert(!(i <= st[last].token < i + t[i].next_item));
            lemma_closed_frame(t, t2, i);
        }
    }
    assert forall|i: int| 0 <= i < t2.len() && (#[trigger] t2[i]).kind.is_container() && t2[i].next_item == 0 implies exists|k: int| 0 <= k < st2.len() && (#[trigger] st2[k]).token == i by {
        assert(i != top && i < n);
        assert(t2[i] == t[i]);
        let k = choose|k: int| 0 <= k < st.len() && (#[trigger] st[k]).token == i;
        assert(k != last);
        assert(st2[k].token == i);
    }
    assert forall|k: int| 0 <= k < st2.len() implies #[trigger] frame_ok(t2, st2, k) by {
        assert(frame_ok(t, st, k));
        let f = st[k].token as int;
        assert(st2[k] == st[k]);
        assert(f < top);
        assert(t2[f] == t[f]);
        let b = frame_bound(t, st, k);
        if k + 1 < last {
            assert(frame_ok(t, st, k + 1));
            assert(st[k + 1].token < top);
            assert(frame_bound(t2, st2, k) == b);
            lemma_walk_frame(t, t2, f + 1, b);
            crate::structure::lemma_walk_bounds(t, f + 1, b);
            let w = walk(t, f + 1, b)->Some_0;
            if t[f].kind == BdecodeTokenType::Dict {
                assert forall|j: int| 0 <= j < w.len() && j % 2 == 0 implies t2[#[trigger] w[j]].kind == BdecodeTokenType::Str by {
                    assert(t2[w[j]] == t[w[j]]);
                }
            }
        } else {
            assert(b == top);
            lemma_walk_frame(t, t2, f + 1, top);
            crate::structure::lemma_walk_bounds(t, f + 1, top);
            lemma_walk_append(t2, f + 1, top);
            let w = walk(t, f + 1, top)->Some_0;
            let w2 = w.push(top);
            assert(walk(t2, f + 1, n + 1) == Some(w2));
            if t[f].kind == BdecodeTokenType::Dict {
                assert forall|j: int| 0 <= j < w2.len() && j % 2 == 0 implies t2[#[trigger] w2[j]].kind == BdecodeTokenType::Str by {
                    assert(j < w.len());
                    assert(w2[j] == w[j]);
                    assert(t2[w[j]] == t[w[j]]);
                }
            }
        }
    }
    assert forall|k: int, j: int| 0 <= k < j < st2.len() implies (#[trigger] st2[k]).token < (#[trigger] st2[j]).token by {
        assert(st2[k] == st[k]);
        assert(st2[j] == st[j]);
    }
    assert forall|i: int, k: int|
        0 <= i < t2.len() && 0 <= k < st2.len() && (#[trigger] t2[i]).kind.is_container() && t2[i].next_item != 0
        implies !(i <= (#[trigger] st2[k]).token < i + t2[i].next_item) by {
        assert(st2[k] == st[k]);
        if i != top {
            assert(t2[i] == t[i]);
        } else {
            assert(st[k].token < top);
        }
    }
    assert forall|i: int| 0 <= i < t2.len() implies (#[trigger] t2[i]).offset <= s2.pos by {
        if i < n {
            assert(t2[i].offset == t[i].offset);
        }
    }
    if st2.len() > 0 {
        assert(st2[0] == st[0]);
    } else {
        assert(top == 0);
    }
}

/// Every step from a state with the invariant leads to a state with it.
pub proof fn lemma_step_inv(buf: Seq<u8>, depth_limit: nat, s: ScanState)
    requires
        state_inv(buf, s),
        s.stack.len() == 0 ==> s.tokens.len() == 0,
        step(buf, depth_limit, s) is Ok,
    ensures
        state_inv(buf, step(buf, depth_limit, s)->Ok_0),
        step(buf, depth_limit, s)->Ok_0.tokens.len() == s.tokens.len() + 1,
{
    let b = buf[s.pos as int];
    if b == 100 || b == 108 {
        lemma_open_shape(buf, depth_limit, s);
        lemma_open_step(buf, depth_limit, s);
    } else if b == 101 {
        lemma_close_shape(buf, depth_limit, s);
        lemma_close_step(buf, depth_limit, s);
        assert(frame_ok(s.tokens, s.stack, s.stack.len() - 1));
        assert(step(buf, depth_limit, s)->Ok_0.tokens.len() == s.tokens.len() + 1);
    } else {
        lemma_leaf_token(buf, depth_limit, s);
        lemma_leaf_step(buf, depth_limit, s);
        assert(step(buf, depth_limit, s)->Ok_0.tokens.len() == s.tokens.len() + 1);
    }
}

#[verifier::rlimit(60)]
proof fn lemma_final(buf: Seq<u8>, s: ScanState)
    requires
        state_inv(buf, s),
        s.stack.len() == 0,
        s.tokens.len() > 0,
    ensures
        tokens_wf(buf, s.tokens.push(tv(s.pos, BdecodeTokenType::End, 1, 0))),
{
    let t = s.tokens;
    let n = t.len() as int;
    let tt = t.push(tv(s.pos, BdecodeTokenType::End, 1, 0));
    assert forall|i: int| 0 <= i < tt.len() - 1 implies #[trigger] token_ok(buf, tt, i) by {
        assert(tt[i] == t[i]);
        assert(ok_before(buf, t, i, s.pos as int));
    }
    assert forall|i: int| 0 <= i < tt.len() - 1 && (#[trigger] tt[i]).kind.is_container() implies closed_ok(tt, i) by {
        assert(tt[i] == t[i]);
        assert(t[i].next_item != 0);
        assert(closed_ok(t, i));
        lemma_closed_frame(t, tt, i);
    }
    assert forall|i: int| 0 <= i < tt.len() implies (#[trigger] tt[i]).offset <= buf.len() by {
        if i < n {
            assert(tt[i] == t[i]);
        }
    }
}

proof fn lemma_run_wf(buf: Seq<u8>, depth_limit: nat, s: ScanState)
    requires
        state_inv(buf, s),
        s.stack.len() == 0 ==> s.tokens.len() == 0,
        run(buf, depth_limit, s) is Ok,
    ensures
        tokens_wf(buf, run(buf, depth_limit, s)->Ok_0),
    decreases buf.len() - s.pos,
{
    let s2 = step(buf, depth_limit, s)->Ok_0;
    lemma_step_inv(buf, depth_limit, s);
    crate::tokenizer::lemma_step_advances(buf, depth_limit, s);
    if s2.stack.len() == 0 {
        lemma_final(buf, s2);
    } else {
        lemma_run_wf(buf, depth_limit, s2);
    }
}

/// The tokens of every accepted buffer are well formed.
pub proof fn lemma_tokenize_wf(buf: Seq<u8>, depth_limit: nat, token_limit: int)
    requires
        tokenize_spec(buf, depth_limit, token_limit) is Ok,
    ensures
        tokens_wf(buf, tokenize_spec(buf, depth_limit, token_limit)->Ok_0),
{
    let s = ScanState { pos: 0, tokens: seq![], stack: seq![], budget: token_limit };
    assert(state_inv(buf, s));
    assert(tokenize_spec(buf, depth_limit, token_limit) == run(buf, depth_limit, s));
    lemma_run_wf(buf, depth_limit, s);
}

/// A step spends one unit of the token budget; a `LimitExceeded` from a step
/// reports the tokens read when the budget ran out, or a layout limit.
proof fn lemma_step_budget(buf: Seq<u8>, depth_limit: nat, s: ScanState)
    ensures
        step(buf, depth_limit, s) is Ok ==> step(buf, depth_limit, s)->Ok_0.budget == s.budget - 1 && s.budget
            - 1 >= 0,
        step(buf, depth_limit, s) is Err && step(buf, depth_limit, s)->Err_0 is LimitExceeded ==> {
            let n = step(buf, depth_limit, s)->Err_0->LimitExceeded_0;
            ||| (n == s.tokens.len() && s.budget - 1 < 0)
            ||| n == crate::limits::MAX_NEXT_ITEM
            ||| n == crate::limits::MAX_HEADER_SIZE
        },
{
    reveal(step);
}

pub proof fn lemma_run_limit(buf: Seq<u8>, depth_limit: nat, token_limit: int, s: ScanState)
    requires
        state_inv(buf, s),
        s.stack.len() == 0 ==> s.tokens.len() == 0,
        s.budget == token_limit - s.tokens.len(),
        s.budget >= 0,
    ensures
        run(buf, depth_limit, s) is Err && run(buf, depth_limit, s)->Err_0 is LimitExceeded ==> {
            let n = run(buf, depth_limit, s)->Err_0->LimitExceeded_0;
            ||| n == token_limit
            ||| n == crate::limits::MAX_NEXT_ITEM
            ||| n == crate::limits::MAX_HEADER_SIZE
        },
    decreases buf.len() - s.pos,
{
    lemma_step_budget(buf, depth_limit, s);
    if step(buf, depth_limit, s) is Ok {
        let s2 = step(buf, depth_limit, s)->Ok_0;
        lemma_step_inv(buf, depth_limit, s);
        crate::tokenizer::lemma_step_advances(buf, depth_limit, s);
        if s2.stack.len() != 0 {
            lemma_run_limit(buf, depth_limit, token_limit, s2);
        }
    }
}

} // verus!
