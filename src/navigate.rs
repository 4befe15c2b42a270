//! Reading a well-formed token stream: the items of a container, the bytes
//! of a string, the value of an integer, the lookup of a dictionary key.
use std::sync::Arc;

use vstd::prelude::*;

use crate::error::{BdecodeError, ErrorView};
use crate::scan::{ascii_chars, dec, parse_uint};
use crate::structure::{child_walk, int_digits_start, local_ok, tokens_wf, token_ok, lemma_walk_to_end, closed_ok, walk};
use crate::token::{BdecodeToken, BdecodeTokenType, TokenView};
use crate::tokenizer::views;

verus! {

/// The indexes of the items of the container at `i`: every item of a list,
/// every key of a dictionary; nothing for other tokens.
pub open spec fn items(t: Seq<TokenView>, i: int) -> Seq<int> {
    let w = child_walk(t, i + 1);
    if t[i].kind == BdecodeTokenType::List {
        w
    } else if t[i].kind == BdecodeTokenType::Dict {
        Seq::new((w.len() + 1) / 2, |j: int| w[2 * j])
    } else {
        seq![]
    }
}

/// The number of items of the container at `i`: its elements for a list,
/// its key-value pairs for a dictionary; zero for other tokens.
pub open spec fn item_count(t: Seq<TokenView>, i: int) -> int {
    let w = child_walk(t, i + 1);
    if t[i].kind == BdecodeTokenType::List {
        w.len() as int
    } else if t[i].kind == BdecodeTokenType::Dict {
        (w.len() / 2) as int
    } else {
        0
    }
}

/// The bytes of the string at `i`: from past its `':'` to the next token.
pub open spec fn str_bytes(buf: Seq<u8>, t: Seq<TokenView>, i: int) -> Seq<u8> {
    buf.subrange(t[i].offset + t[i].header_size + 1int, t[i + 1].offset as int)
}

/// The digits of the integer at `i`: past the `'i'` and an optional `'-'`, up to the `'e'`.
pub open spec fn int_digits(buf: Seq<u8>, t: Seq<TokenView>, i: int) -> Seq<u8> {
    buf.subrange(int_digits_start(buf, t[i]), t[i + 1].offset - 1)
}

/// The value of the integer at `i`, or `Overflow` when its magnitude exceeds `i64::MAX`.
pub open spec fn int_value(buf: Seq<u8>, t: Seq<TokenView>, i: int) -> Result<int, ErrorView> {
    let v = dec(int_digits(buf, t, i));
    if v > i64::MAX {
        Err(ErrorView::Overflow(ascii_chars(int_digits(buf, t, i))))
    } else if buf[t[i].offset + 1int] == 45 {
        Ok(-v)
    } else {
        Ok(v)
    }
}

/// The index of the value of the first key among `keys[j..]` whose bytes are `key`.
pub open spec fn find_from(buf: Seq<u8>, t: Seq<TokenView>, keys: Seq<int>, key: Seq<u8>, j: int) -> Option<int>
    decreases keys.len() - j,
{
    if j < 0 || j >= keys.len() {
        None
    } else if str_bytes(buf, t, keys[j]) == key {
        Some(keys[j] + 1)
    } else {
        find_from(buf, t, keys, key, j + 1)
    }
}

/// The index of the value of the first key of the dictionary at `i` whose bytes are `key`.
pub open spec fn find_value(buf: Seq<u8>, t: Seq<TokenView>, i: int, key: Seq<u8>) -> Option<int> {
    find_from(buf, t, items(t, i), key, 0)
}

/// A string token of a well-formed stream has skip distance 1.
pub proof fn lemma_str_token(buf: Seq<u8>, t: Seq<TokenView>, k: int)
    requires
        tokens_wf(buf, t),
        0 <= k < t.len() - 1,
        t[k].kind == BdecodeTokenType::Str,
    ensures
        t[k].next_item == 1,
        t[k].offset + t[k].header_size + 1 <= t[k + 1].offset <= buf.len(),
{
    assert(token_ok(buf, t, k));
    reveal(local_ok);
    let o = t[k].offset as int;
    crate::scan::lemma_dec_digits(buf, o, o + t[k].header_size);
}

/// The child walk of a closed container, with its bounds.
pub proof fn lemma_items(buf: Seq<u8>, t: Seq<TokenView>, i: int)
    requires
        tokens_wf(buf, t),
        0 <= i < t.len(),
    ensures
        forall|j: int| 0 <= j < items(t, i).len() ==> i < #[trigger] items(t, i)[j] < t.len() - 1,
        t[i].kind == BdecodeTokenType::Dict ==> child_walk(t, i + 1).len() % 2 == 0,
        t[i].kind == BdecodeTokenType::Dict ==> items(t, i).len() == item_count(t, i),
        t[i].kind == BdecodeTokenType::List ==> items(t, i).len() == item_count(t, i),
{
    if t[i].kind.is_container() {
        assert(i < t.len() - 1);
        assert(closed_ok(t, i));
        let c = i + t[i].next_item - 1;
        lemma_walk_to_end(t, i + 1, c);
        crate::structure::lemma_walk_bounds(t, i + 1, c);
    }
}

/// The keys of a dictionary are strings, each followed by its value.
pub proof fn lemma_dict_keys(buf: Seq<u8>, t: Seq<TokenView>, i: int)
    requires
        tokens_wf(buf, t),
        0 <= i < t.len(),
        t[i].kind == BdecodeTokenType::Dict,
    ensures
        forall|j: int| 0 <= j < items(t, i).len() ==> {
            &&& t[#[trigger] items(t, i)[j]].kind == BdecodeTokenType::Str
            &&& child_walk(t, i + 1)[2 * j + 1] == items(t, i)[j] + 1
            &&& 2 * j + 1 < child_walk(t, i + 1).len()
            &&& items(t, i)[j] + 1 < i + t[i].next_item - 1
            &&& t[items(t, i)[j] + 1].kind != BdecodeTokenType::End
        },
{
    lemma_items(buf, t, i);
    assert(i < t.len() - 1);
    assert(closed_ok(t, i));
    let c = i + t[i].next_item - 1;
    lemma_walk_to_end(t, i + 1, c);
    lemma_walk_next(t, i + 1, c);
    let w = child_walk(t, i + 1);
    crate::structure::lemma_walk_bounds(t, i + 1, c);
    assert forall|j: int| 0 <= j < items(t, i).len() implies {
        &&& t[#[trigger] items(t, i)[j]].kind == BdecodeTokenType::Str
        &&& child_walk(t, i + 1)[2 * j + 1] == items(t, i)[j] + 1
        &&& 2 * j + 1 < child_walk(t, i + 1).len()
        &&& items(t, i)[j] + 1 < i + t[i].next_item - 1
        &&& t[items(t, i)[j] + 1].kind != BdecodeTokenType::End
    } by {
        assert(items(t, i)[j] == w[2 * j]);
        assert((2 * j) % 2 == 0);
        let k = w[2 * j];
        assert(t[k].kind == BdecodeTokenType::Str);
        lemma_str_token(buf, t, k);
        assert(walk_steps(t, w, 2 * j));
        assert(w[2 * j + 1] < c && t[w[2 * j + 1]].kind != BdecodeTokenType::End);
    }
}

/// Item `j + 1` of a walk is item `j` plus its skip distance.
pub open spec fn walk_steps(t: Seq<TokenView>, s: Seq<int>, j: int) -> bool {
    s[j + 1] == s[j] + t[s[j]].next_item
}

/// In a walk, each item after the first is the previous item plus its skip distance.
proof fn lemma_walk_next(t: Seq<TokenView>, a: int, b: int)
    requires
        walk(t, a, b) is Some,
    ensures
        forall|j: int| 0 <= j < walk(t, a, b)->Some_0.len() - 1 ==> #[trigger] walk_steps(t, walk(t, a, b)->Some_0, j),
        walk(t, a, b)->Some_0.len() > 0 ==> walk(t, a, b)->Some_0[0] == a,
    decreases b - a,
{
    if a != b {
        let a2 = a + t[a].next_item;
        lemma_walk_next(t, a2, b);
        let r = walk(t, a2, b)->Some_0;
        let s = walk(t, a, b)->Some_0;
        assert(s == seq![a] + r);
        assert forall|j: int| 0 <= j < s.len() - 1 implies #[trigger] walk_steps(t, s, j) by {
            if j == 0 {
                assert(s[1] == r[0]);
            } else {
                assert(walk_steps(t, r, j - 1));
                assert(s[j + 1] == r[j]);
                assert(s[j] == r[j - 1]);
            }
        }
    }
}

/// The items of a container, each with the indexes it holds, and their number:
/// every item of a list, every key of a dictionary (the number of pairs).
/// Another kind of token has none.
pub fn gen_item_indexes(tokens: &[BdecodeToken], start_token_idx: usize) -> (r: (Arc<Vec<u32>>, usize))
    requires
        start_token_idx < tokens@.len() <= u32::MAX,
    ensures
        tokens@.len() < 2 ==> r.1 == 0 && r.0@.len() == 0,
        tokens@.len() >= 2 ==> {
            &&& r.1 == item_count(views(tokens@), start_token_idx as int)
            &&& r.0@.len() == items(views(tokens@), start_token_idx as int).len()
            &&& forall|j: int| 0 <= j < r.0@.len() ==> r.0@[j] == #[trigger] items(views(tokens@), start_token_idx as int)[j]
        },
{
    let ghost t = views(tokens@);
    let mut node_indexes: Vec<u32> = Vec::new();
    if tokens.len() < 2 {
        return (Arc::new(node_indexes), 0);
    }
    let len = tokens.len();
    let kind = tokens[start_token_idx].node_type();
    let mut begin: usize = start_token_idx + 1;
    let mut count: usize = 0;
    let ghost w0 = child_walk(t, begin as int);
    assert(w0 =~= w0.subrange(0, 0) + child_walk(t, begin as int));
    if kind == BdecodeTokenType::Dict || kind == BdecodeTokenType::List {
        let is_dict = kind == BdecodeTokenType::Dict;
        while begin < len && tokens[begin].node_type() != BdecodeTokenType::End && tokens[begin].next_item() > 0
            invariant
                len == tokens@.len() == t.len(),
                t == views(tokens@),
                len <= u32::MAX,
                is_dict == (kind == BdecodeTokenType::Dict),
                start_token_idx < begin <= len,
                w0 == child_walk(t, start_token_idx + 1),
                count <= begin - start_token_idx - 1,
                count <= w0.len(),
                w0 == child_walk(t, start_token_idx + 1).subrange(0, count as int) + child_walk(t, begin as int),
                is_dict ==> node_indexes@.len() == (count + 1) / 2,
                is_dict ==> forall|j: int| 0 <= j < node_indexes@.len() ==> node_indexes@[j] == #[trigger] w0[2 * j],
                !is_dict ==> node_indexes@.len() == count,
                !is_dict ==> forall|j: int| 0 <= j < node_indexes@.len() ==> node_indexes@[j] == #[trigger] w0[j],
            decreases len - begin,
        {
            let ghost prev = child_walk(t, begin as int);
            assert(prev == seq![begin as int] + child_walk(t, begin + t[begin as int].next_item));
            assert(w0[count as int] == prev[0]);
            assert(w0[count as int] == begin);
            if is_dict {
                if count % 2 == 0 {
                    node_indexes.push(begin as u32);
                }
            } else {
                node_indexes.push(begin as u32);
            }
            let next = tokens[begin].next_item() as usize;
            proof {
                assert(w0.subrange(0, count as int + 1) =~= w0.subrange(0, count as int).push(begin as int));
                assert(w0 =~= w0.subrange(0, count as int + 1) + child_walk(t, begin + t[begin as int].next_item));
            }
            count += 1;
            if next > len - begin {
                begin = len;
                assert(child_walk(t, len as int) == Seq::<int>::empty());
            } else {
                begin = begin + next;
            }
        }
        assert(child_walk(t, begin as int) == Seq::<int>::empty());
        assert(w0.subrange(0, count as int) =~= w0);
        if is_dict {
            count = count / 2;
        }
    }
    (Arc::new(node_indexes), count)
}

/// The facts of an integer token of a well-formed stream.
pub proof fn lemma_int_token(buf: Seq<u8>, t: Seq<TokenView>, k: int)
    requires
        tokens_wf(buf, t),
        0 <= k < t.len(),
        t[k].kind == BdecodeTokenType::Int,
    ensures
        k + 1 < t.len(),
        t[k].offset + 2 <= t[k + 1].offset <= buf.len(),
        int_digits_start(buf, t[k]) <= t[k + 1].offset - 1,
        crate::structure::digits_between(buf, int_digits_start(buf, t[k]), t[k + 1].offset - 1),
        buf[t[k + 1].offset - 1] == 101,
{
    assert(token_ok(buf, t, k));
    reveal(local_ok);
}

/// The indexes as integers.
pub open spec fn as_ints(s: Seq<u32>) -> Seq<int> {
    s.map_values(|k: u32| k as int)
}

/// A token stream that a node can stand on: well formed, and indexable by `u32`.
pub open spec fn stream_ok(buf: Seq<u8>, t: Seq<TokenView>) -> bool {
    tokens_wf(buf, t) && t.len() <= crate::limits::BUFFER_MAX_OFFSET + 1
}

/// Relies on `Arc::clone`: the new handle shares the same value.
#[verifier::external_body]
pub(crate) fn share<T>(a: &Arc<T>) -> (r: Arc<T>)
    ensures
        r == *a,
{
    Arc::clone(a)
}

/// The bytes of the string token at `idx`, borrowed from the buffer.
pub fn str_value<'a>(buffer: &'a [u8], tokens: &[BdecodeToken], idx: usize) -> (r: &'a [u8])
    requires
        tokens_wf(buffer@, views(tokens@)),
        idx < tokens@.len(),
        views(tokens@)[idx as int].kind == BdecodeTokenType::Str,
    ensures
        r@ == str_bytes(buffer@, views(tokens@), idx as int),
{
    proof {
        lemma_str_token(buffer@, views(tokens@), idx as int);
    }
    let t = tokens[idx];
    let start = t.offset() as usize + t.header_size() as usize + 1;
    let end = tokens[idx + 1].offset() as usize;
    vstd::slice::slice_subrange(buffer, start, end)
}

/// The value of the integer token at `idx`.
pub fn int_value_at(buffer: &[u8], tokens: &[BdecodeToken], idx: usize) -> (r: Result<i64, BdecodeError>)
    requires
        tokens_wf(buffer@, views(tokens@)),
        idx < tokens@.len(),
        views(tokens@)[idx as int].kind == BdecodeTokenType::Int,
    ensures
        match int_value(buffer@, views(tokens@), idx as int) {
            Ok(v) => r is Ok && r->Ok_0 == v,
            Err(e) => r is Err && r->Err_0@ == e,
        },
{
    let ghost t = views(tokens@);
    proof {
        lemma_int_token(buffer@, t, idx as int);
    }
    let o = tokens[idx].offset() as usize;
    let negative = buffer[o + 1] == 45u8;
    let d = if negative {
        o + 2
    } else {
        o + 1
    };
    let ghost e = t[idx + 1].offset - 1;
    proof {
        crate::scan::lemma_run_end_at(buffer@, d as int, e, 101);
        assert(buffer@.subrange(d as int, e) == int_digits(buffer@, t, idx as int));
    }
    let mut val: i64 = 0;
    match parse_uint(buffer, d, 101u8, &mut val) {
        Ok(_) => {
            if negative {
                Ok(-val)
            } else {
                Ok(val)
            }
        },
        Err(err) => Err(err),
    }
}

/// Whether two byte strings are equal.
fn bytes_eq(a: &[u8], b: &[u8]) -> (r: bool)
    ensures
        r == (a@ == b@),
{
    if a.len() != b.len() {
        return false;
    }
    let mut i: usize = 0;
    while i < a.len()
        invariant
            a@.len() == b@.len(),
            i <= a@.len(),
            forall|k: int| 0 <= k < i ==> a@[k] == b@[k],
        decreases a@.len() - i,
    {
        if a[i] != b[i] {
            return false;
        }
        i += 1;
    }
    assert(a@ =~= b@);
    true
}

/// The index of the value of the first key in `keys` whose bytes are `key`.
pub fn find_in(buffer: &[u8], tokens: &[BdecodeToken], keys: &Vec<u32>, key: &[u8]) -> (r: Option<u32>)
    requires
        stream_ok(buffer@, views(tokens@)),
        forall|j: int| 0 <= j < keys@.len() ==> (#[trigger] keys@[j]) < tokens@.len() - 1
            && views(tokens@)[keys@[j] as int].kind == BdecodeTokenType::Str,
    ensures
        match find_from(buffer@, views(tokens@), as_ints(keys@), key@, 0) {
            Some(v) => r == Some(v as u32),
            None => r is None,
        },
{
    let ghost t = views(tokens@);
    let ghost ks = as_ints(keys@);
    let mut j: usize = 0;
    while j < keys.len()
        invariant
            stream_ok(buffer@, t),
            t == views(tokens@),
            ks == as_ints(keys@),
            j <= keys@.len(),
            forall|i: int| 0 <= i < keys@.len() ==> (#[trigger] keys@[i]) < tokens@.len() - 1
                && t[keys@[i] as int].kind == BdecodeTokenType::Str,
            find_from(buffer@, t, ks, key@, 0) == find_from(buffer@, t, ks, key@, j as int),
        decreases keys@.len() - j,
    {
        let k = keys[j];
        let bytes = str_value(buffer, tokens, k as usize);
        if bytes_eq(bytes, key) {
            return Some(k + 1);
        }
        j += 1;
    }
    None
}

} // verus!
