//! The shape of a token stream: what each token says of the buffer, how
//! containers enclose their items, and why the tokenizer's output has that shape.
use vstd::prelude::*;

use crate::scan::{dec, is_digit};
use crate::token::{BdecodeTokenType, TokenView};

verus! {

/// The skip-walk from `a`: each visited token is not an end marker and has a
/// positive skip distance, and the walk lands exactly on `b`. Gives the visited indexes.
pub open spec fn walk(t: Seq<TokenView>, a: int, b: int) -> Option<Seq<int>>
    decreases b - a,
{
    if a == b {
        Some(seq![])
    } else if 0 <= a < b && a < t.len() && t[a].kind != BdecodeTokenType::End && t[a].next_item > 0
        && a + t[a].next_item <= b {
        match walk(t, a + t[a].next_item, b) {
            Some(r) => Some(seq![a] + r),
            None => None,
        }
    } else {
        None
    }
}

/// The skip-walk from `a` until an end marker (or a token it cannot step over).
pub open spec fn child_walk(t: Seq<TokenView>, a: int) -> Seq<int>
    decreases (if a < t.len() {
        t.len() - a
    } else {
        0
    }),
{
    if 0 <= a < t.len() && t[a].kind != BdecodeTokenType::End && t[a].next_item > 0 {
        seq![a] + child_walk(t, a + t[a].next_item)
    } else {
        seq![]
    }
}

/// The bytes in `[a, b)` are digits.
pub open spec fn digits_between(buf: Seq<u8>, a: int, b: int) -> bool {
    forall|k: int| a <= k < b ==> is_digit(#[trigger] buf[k])
}

/// The value of a string's length prefix.
pub open spec fn str_len(buf: Seq<u8>, x: TokenView) -> int {
    dec(buf.subrange(x.offset as int, (x.offset + x.header_size) as int))
}

/// Where the digits of an integer start: past the `'i'` and an optional `'-'`.
pub open spec fn int_digits_start(buf: Seq<u8>, x: TokenView) -> int {
    if buf[x.offset + 1int] == 45 {
        x.offset + 2int
    } else {
        x.offset + 1int
    }
}

/// What a token says of the buffer, given where its source ends.
#[verifier::opaque]
pub open spec fn local_ok(buf: Seq<u8>, x: TokenView, end: int) -> bool {
    let o = x.offset as int;
    match x.kind {
        BdecodeTokenType::Str => {
            let h = x.header_size as int;
            &&& x.next_item == 1
            &&& 1 <= h <= 7
            &&& o + h < buf.len()
            &&& digits_between(buf, o, o + h)
            &&& buf[o + h] == 58
            &&& end == o + h + 1 + str_len(buf, x)
            &&& end <= buf.len()
        },
        BdecodeTokenType::Int => {
            &&& x.next_item == 1
            &&& x.header_size == 0
            &&& o + 2 <= end <= buf.len()
            &&& buf[o] == 105
            &&& int_digits_start(buf, x) <= end - 1
            &&& digits_between(buf, int_digits_start(buf, x), end - 1)
            &&& buf[end - 1] == 101
        },
        BdecodeTokenType::End => {
            &&& x.next_item == 1
            &&& x.header_size == 0
            &&& o < buf.len()
            &&& buf[o] == 101
            &&& end == o + 1
        },
        BdecodeTokenType::Dict => {
            &&& x.header_size == 0
            &&& o < buf.len()
            &&& buf[o] == 100
            &&& end == o + 1
        },
        BdecodeTokenType::List => {
            &&& x.header_size == 0
            &&& o < buf.len()
            &&& buf[o] == 108
            &&& end == o + 1
        },
        BdecodeTokenType::Undefined => false,
    }
}

/// Token `i` agrees with the buffer up to the next token's offset.
pub open spec fn token_ok(buf: Seq<u8>, t: Seq<TokenView>, i: int) -> bool {
    local_ok(buf, t[i], t[i + 1].offset as int)
}

/// The items at even positions (the keys of a dictionary) are strings.
pub open spec fn keys_are_strings(t: Seq<TokenView>, items: Seq<int>) -> bool {
    forall|j: int| 0 <= j < items.len() && j % 2 == 0 ==> t[#[trigger] items[j]].kind == BdecodeTokenType::Str
}

/// A closed container: its skip distance leads to its end marker, its items
/// are walked from the next token to that marker, and a dictionary holds
/// key-value pairs with string keys.
pub open spec fn closed_ok(t: Seq<TokenView>, i: int) -> bool {
    let c = i + t[i].next_item - 1;
    &&& 2 <= t[i].next_item <= crate::limits::MAX_NEXT_ITEM
    &&& c < t.len()
    &&& t[c].kind == BdecodeTokenType::End
    &&& walk(t, i + 1, c) is Some
    &&& t[i].kind == BdecodeTokenType::Dict ==> {
        &&& walk(t, i + 1, c)->Some_0.len() % 2 == 0
        &&& keys_are_strings(t, walk(t, i + 1, c)->Some_0)
    }
}

/// A well-formed token stream for `buf`: every token agrees with the bytes
/// up to the next token's offset, every container is closed, the root spans
/// the stream, and a terminator ends it.
pub open spec fn tokens_wf(buf: Seq<u8>, t: Seq<TokenView>) -> bool {
    &&& t.len() >= 2
    &&& t.last().kind == BdecodeTokenType::End
    &&& forall|i: int| 0 <= i < t.len() ==> (#[trigger] t[i]).offset <= buf.len()
    &&& forall|i: int| 0 <= i < t.len() - 1 ==> #[trigger] token_ok(buf, t, i)
    &&& forall|i: int|
        0 <= i < t.len() - 1 && (#[trigger] t[i]).kind.is_container() ==> closed_ok(t, i) && i
            + t[i].next_item - 1 < t.len() - 1
    &&& t[0].kind.is_container() ==> t[0].next_item == t.len() - 1
    &&& !t[0].kind.is_container() ==> t.len() == 2
}

pub proof fn lemma_walk_frame(t: Seq<TokenView>, t2: Seq<TokenView>, a: int, b: int)
    requires
        walk(t, a, b) is Some,
        b <= t2.len(),
        forall|j: int| a <= j < b ==> t2[j] == t[j],
    ensures
        walk(t2, a, b) == walk(t, a, b),
    decreases b - a,
{
    if a != b {
        lemma_walk_frame(t, t2, a + t[a].next_item, b);
    }
}

pub proof fn lemma_walk_append(t: Seq<TokenView>, a: int, b: int)
    requires
        walk(t, a, b) is Some,
        0 <= b < t.len(),
        t[b].kind != BdecodeTokenType::End,
        t[b].next_item > 0,
    ensures
        walk(t, a, b + t[b].next_item) == Some(walk(t, a, b)->Some_0.push(b)),
    decreases b - a,
{
    let c = b + t[b].next_item;
    if a == b {
        assert(walk(t, c, c) == Some(Seq::<int>::empty()));
        assert(seq![b] + Seq::<int>::empty() =~= Seq::<int>::empty().push(b));
    } else {
        let a2 = a + t[a].next_item;
        lemma_walk_append(t, a2, b);
        let r = walk(t, a2, b)->Some_0;
        assert(seq![a] + r.push(b) =~= (seq![a] + r).push(b));
    }
}

pub proof fn lemma_walk_bounds(t: Seq<TokenView>, a: int, b: int)
    requires
        walk(t, a, b) is Some,
    ensures
        a <= b,
        forall|j: int|
            0 <= j < walk(t, a, b)->Some_0.len() ==> a <= #[trigger] walk(t, a, b)->Some_0[j] < b
                && walk(t, a, b)->Some_0[j] < t.len() && t[walk(t, a, b)->Some_0[j]].kind
                != BdecodeTokenType::End,
    decreases b - a,
{
    if a != b {
        lemma_walk_bounds(t, a + t[a].next_item, b);
    }
}

/// Where a walk to an end marker lands, the walk until an end marker agrees.
pub proof fn lemma_walk_to_end(t: Seq<TokenView>, a: int, c: int)
    requires
        walk(t, a, c) is Some,
        0 <= c < t.len(),
        t[c].kind == BdecodeTokenType::End,
    ensures
        child_walk(t, a) == walk(t, a, c)->Some_0,
    decreases c - a,
{
    if a != c {
        lemma_walk_to_end(t, a + t[a].next_item, c);
    }
}

} // verus!
