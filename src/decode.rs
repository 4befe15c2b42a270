//! Node views: a handle on one token of a shared buffer and token array,
//! with typed accessors.
use std::sync::Arc;

use vstd::prelude::*;

use crate::error::BdecodeError;
use crate::json::{json, json_string, style_fits};
use crate::scan::ascii_chars;
use crate::limits::{DEFAULT_DEPTH_LIMIT, DEFAULT_TOKEN_LIMIT};
use crate::navigate::{
    as_ints, find_in, find_value, gen_item_indexes, int_value, int_value_at, item_count, items,
    lemma_dict_keys, lemma_items, share, str_bytes, str_value, stream_ok,
};
use crate::structure::{local_ok, token_ok, tokens_wf};
use crate::token::{BdecodeToken, BdecodeTokenType, TokenView};
use crate::tokenizer::{tokenize, tokenize_spec, views};

verus! {

/// How JSON is laid out: on one line, or indented by the given number of spaces.
#[derive(Debug, Clone, Copy, PartialEq, Eq, Structural)]
pub enum Style {
    Compact,
    Pretty(usize),
}

/// Access to the token that a node stands on.
pub trait IBdecodeNode {
    /// The index of the node's token.
    spec fn node_index(&self) -> int;

    /// The tokens the node stands on.
    spec fn node_tokens(&self) -> Seq<TokenView>;

    /// The kind of the node's token.
    spec fn kind_of(&self) -> BdecodeTokenType;

    /// The index of the node's token.
    fn token_index(&self) -> (r: usize)
        ensures
            r == self.node_index(),
    ;

    /// The shared token array.
    fn tokens(&self) -> (r: Arc<Vec<BdecodeToken>>)
        ensures
            views(r@) == self.node_tokens(),
    ;

    /// The kind of the node's token.
    fn token_type(&self) -> (r: BdecodeTokenType)
        ensures
            r == self.kind_of(),
    ;
}

/// Every token of a well-formed stream has one of the five kinds.
proof fn lemma_kind_defined(buf: Seq<u8>, t: Seq<TokenView>, i: int)
    requires
        tokens_wf(buf, t),
        0 <= i < t.len(),
    ensures
        t[i].kind != BdecodeTokenType::Undefined,
{
    if i < t.len() - 1 {
        assert(token_ok(buf, t, i));
        reveal(local_ok);
    }
}

/// A string node.
#[derive(Debug)]
pub struct Str {
    token_index: u32,
    tokens: Arc<Vec<BdecodeToken>>,
    buffer: Arc<Vec<u8>>,
}

/// An integer node.
#[derive(Debug)]
pub struct Int {
    token_index: u32,
    tokens: Arc<Vec<BdecodeToken>>,
    buffer: Arc<Vec<u8>>,
}

/// An end-marker node.
#[derive(Debug)]
pub struct End {
    token_index: u32,
    tokens: Arc<Vec<BdecodeToken>>,
    buffer: Arc<Vec<u8>>,
}

/// A list node, with the indexes of its elements.
#[derive(Debug)]
pub struct List {
    token_index: u32,
    tokens: Arc<Vec<BdecodeToken>>,
    buffer: Arc<Vec<u8>>,
    item_indexes: Arc<Vec<u32>>,
    len: usize,
}

/// A dictionary node, with the indexes of its keys.
#[derive(Debug)]
pub struct Dict {
    token_index: u32,
    tokens: Arc<Vec<BdecodeToken>>,
    buffer: Arc<Vec<u8>>,
    item_indexes: Arc<Vec<u32>>,
    len: usize,
}

/// A node: a view on one token of a tokenized buffer.
#[derive(Debug)]
pub enum BdecodeNode {
    Dict(Dict),
    List(List),
    Str(Str),
    Int(Int),
    End(End),
}

/// Token `idx` of `t` is a node of kind `kind` over `buf`.
pub open spec fn node_ok(buf: Seq<u8>, t: Seq<TokenView>, idx: int, kind: BdecodeTokenType) -> bool {
    &&& stream_ok(buf, t)
    &&& 0 <= idx < t.len()
    &&& t[idx].kind == kind
}

impl Str {
    #[verifier::type_invariant]
    spec fn inv(&self) -> bool {
        node_ok(self.buffer@, views(self.tokens@), self.token_index as int, BdecodeTokenType::Str)
    }

    /// The index of the node's token.
    pub closed spec fn index(&self) -> int {
        self.token_index as int
    }

    /// The tokens the node stands on.
    pub closed spec fn toks(&self) -> Seq<TokenView> {
        views(self.tokens@)
    }

    /// The buffer the node stands on.
    pub closed spec fn buf(&self) -> Seq<u8> {
        self.buffer@
    }

    pub fn new(buffer: Arc<Vec<u8>>, tokens: Arc<Vec<BdecodeToken>>, token_index: u32) -> (r: Self)
        requires
            node_ok(buffer@, views(tokens@), token_index as int, BdecodeTokenType::Str),
        ensures
            r.index() == token_index,
            r.toks() == views(tokens@),
            r.buf() == buffer@,
    {
        Str { token_index, tokens, buffer }
    }

    /// The bytes of the string, borrowed from the buffer.
    pub fn value(&self) -> (r: &[u8])
        ensures
            r@ == str_bytes(self.buf(), self.toks(), self.index()),
    {
        proof {
            use_type_invariant(self);
        }
        str_value(self.buffer.as_slice(), self.tokens.as_slice(), self.token_index as usize)
    }
}

impl Int {
    #[verifier::type_invariant]
    spec fn inv(&self) -> bool {
        node_ok(self.buffer@, views(self.tokens@), self.token_index as int, BdecodeTokenType::Int)
    }

    /// The index of the node's token.
    pub closed spec fn index(&self) -> int {
        self.token_index as int
    }

    /// The tokens the node stands on.
    pub closed spec fn toks(&self) -> Seq<TokenView> {
        views(self.tokens@)
    }

    /// The buffer the node stands on.
    pub closed spec fn buf(&self) -> Seq<u8> {
        self.buffer@
    }

    pub fn new(buffer: Arc<Vec<u8>>, tokens: Arc<Vec<BdecodeToken>>, token_index: u32) -> (r: Self)
        requires
            node_ok(buffer@, views(tokens@), token_index as int, BdecodeTokenType::Int),
        ensures
            r.index() == token_index,
            r.toks() == views(tokens@),
            r.buf() == buffer@,
    {
        Int { token_index, tokens, buffer }
    }

    /// The value of the integer, or `Overflow` when it does not fit an `i64`.
    pub fn value(&self) -> (r: Result<i64, BdecodeError>)
        ensures
            match int_value(self.buf(), self.toks(), self.index()) {
                Ok(v) => r is Ok && r->Ok_0 == v,
                Err(e) => r is Err && r->Err_0@ == e,
            },
    {
        proof {
            use_type_invariant(self);
        }
        int_value_at(self.buffer.as_slice(), self.tokens.as_slice(), self.token_index as usize)
    }
}

impl End {
    #[verifier::type_invariant]
    spec fn inv(&self) -> bool {
        node_ok(self.buffer@, views(self.tokens@), self.token_index as int, BdecodeTokenType::End)
    }

    /// The index of the node's token.
    pub closed spec fn index(&self) -> int {
        self.token_index as int
    }

    /// The tokens the node stands on.
    pub closed spec fn toks(&self) -> Seq<TokenView> {
        views(self.tokens@)
    }

    /// The buffer the node stands on.
    pub closed spec fn buf(&self) -> Seq<u8> {
        self.buffer@
    }

    pub fn new(buffer: Arc<Vec<u8>>, tokens: Arc<Vec<BdecodeToken>>, token_index: u32) -> (r: Self)
        requires
            node_ok(buffer@, views(tokens@), token_index as int, BdecodeTokenType::End),
        ensures
            r.index() == token_index,
            r.toks() == views(tokens@),
            r.buf() == buffer@,
    {
        End { token_index, tokens, buffer }
    }
}

/// The indexes a container node holds are its items, and its length their number.
pub open spec fn container_ok(
    buf: Seq<u8>,
    t: Seq<TokenView>,
    idx: int,
    kind: BdecodeTokenType,
    item_indexes: Seq<u32>,
    len: usize,
) -> bool {
    &&& node_ok(buf, t, idx, kind)
    &&& as_ints(item_indexes) == items(t, idx)
    &&& len == item_count(t, idx)
    &&& len == item_indexes.len()
}

/// Computes the items of a container and checks what a container node holds.
fn container_items(tokens: &Vec<BdecodeToken>, token_index: u32, Ghost(buf): Ghost<Seq<u8>>) -> (r: (
    Arc<Vec<u32>>,
    usize,
))
    requires
        stream_ok(buf, views(tokens@)),
        token_index < tokens@.len(),
        views(tokens@)[token_index as int].kind.is_container(),
    ensures
        container_ok(buf, views(tokens@), token_index as int, views(tokens@)[token_index as int].kind, r.0@, r.1),
{
    let r = gen_item_indexes(tokens.as_slice(), token_index as usize);
    proof {
        let t = views(tokens@);
        lemma_items(buf, t, token_index as int);
        assert(as_ints(r.0@) =~= items(t, token_index as int));
    }
    r
}

impl List {
    #[verifier::type_invariant]
    spec fn inv(&self) -> bool {
        container_ok(self.buffer@, views(self.tokens@), self.token_index as int, BdecodeTokenType::List, self.item_indexes@, self.len)
    }

    /// The index of the node's token.
    pub closed spec fn index(&self) -> int {
        self.token_index as int
    }

    /// The tokens the node stands on.
    pub closed spec fn toks(&self) -> Seq<TokenView> {
        views(self.tokens@)
    }

    /// The buffer the node stands on.
    pub closed spec fn buf(&self) -> Seq<u8> {
        self.buffer@
    }

    pub fn new(
        buffer: Arc<Vec<u8>>,
        tokens: Arc<Vec<BdecodeToken>>,
        token_index: u32,
        item_indexes: Arc<Vec<u32>>,
        len: usize,
    ) -> (r: Self)
        requires
            container_ok(buffer@, views(tokens@), token_index as int, BdecodeTokenType::List, item_indexes@, len),
        ensures
            r.index() == token_index,
            r.toks() == views(tokens@),
            r.buf() == buffer@,
    {
        List { token_index, tokens, buffer, item_indexes, len }
    }

    /// The number of elements.
    pub fn len(&self) -> (r: usize)
        ensures
            r == item_count(self.toks(), self.index()),
    {
        proof {
            use_type_invariant(self);
        }
        self.len
    }

    /// The indexes of the elements' tokens.
    pub fn item_indexes(&self) -> (r: Arc<Vec<u32>>)
        ensures
            as_ints(r@) == items(self.toks(), self.index()),
    {
        proof {
            use_type_invariant(self);
        }
        share(&self.item_indexes)
    }

    /// The element at `index`.
    pub fn item(&self, index: usize) -> (r: BdecodeNode)
        requires
            index < item_count(self.toks(), self.index()),
        ensures
            r.index() == items(self.toks(), self.index())[index as int],
            r.toks() == self.toks(),
            r.buf() == self.buf(),
            r.kind() == self.toks()[r.index()].kind,
    {
        proof {
            use_type_invariant(self);
            lemma_items(self.buffer@, views(self.tokens@), self.token_index as int);
            assert(as_ints(self.item_indexes@)[index as int] == self.item_indexes@[index as int] as int);
        }
        let token_idx = self.item_indexes[index];
        BdecodeNode::new(token_idx, share(&self.tokens), share(&self.buffer))
    }

    /// The element at `index`, which is an integer, as its value.
    pub fn as_int(&self, index: usize) -> (r: Result<i64, BdecodeError>)
        requires
            index < item_count(self.toks(), self.index()),
            self.toks()[items(self.toks(), self.index())[index as int]].kind == BdecodeTokenType::Int,
        ensures
            match int_value(self.buf(), self.toks(), items(self.toks(), self.index())[index as int]) {
                Ok(v) => r is Ok && r->Ok_0 == v,
                Err(e) => r is Err && r->Err_0@ == e,
            },
    {
        self.item(index).as_int()
    }

    /// The element at `index`, which is a string, as its bytes.
    pub fn as_str(&self, index: usize) -> (r: &[u8])
        requires
            index < item_count(self.toks(), self.index()),
            self.toks()[items(self.toks(), self.index())[index as int]].kind == BdecodeTokenType::Str,
        ensures
            r@ == str_bytes(self.buf(), self.toks(), items(self.toks(), self.index())[index as int]),
    {
        proof {
            use_type_invariant(self);
            lemma_items(self.buffer@, views(self.tokens@), self.token_index as int);
            assert(as_ints(self.item_indexes@)[index as int] == self.item_indexes@[index as int] as int);
        }
        let token_idx = self.item_indexes[index];
        str_value(self.buffer.as_slice(), self.tokens.as_slice(), token_idx as usize)
    }
}

impl Dict {
    #[verifier::type_invariant]
    spec fn inv(&self) -> bool {
        container_ok(self.buffer@, views(self.tokens@), self.token_index as int, BdecodeTokenType::Dict, self.item_indexes@, self.len)
    }

    /// The index of the node's token.
    pub closed spec fn index(&self) -> int {
        self.token_index as int
    }

    /// The tokens the node stands on.
    pub closed spec fn toks(&self) -> Seq<TokenView> {
        views(self.tokens@)
    }

    /// The buffer the node stands on.
    pub closed spec fn buf(&self) -> Seq<u8> {
        self.buffer@
    }

    pub fn new(
        buffer: Arc<Vec<u8>>,
        tokens: Arc<Vec<BdecodeToken>>,
        token_index: u32,
        item_indexes: Arc<Vec<u32>>,
        len: usize,
    ) -> (r: Self)
        requires
            container_ok(buffer@, views(tokens@), token_index as int, BdecodeTokenType::Dict, item_indexes@, len),
        ensures
            r.index() == token_index,
            r.toks() == views(tokens@),
            r.buf() == buffer@,
    {
        Dict { token_index, tokens, buffer, item_indexes, len }
    }

    /// The number of key-value pairs.
    pub fn len(&self) -> (r: usize)
        ensures
            r == item_count(self.toks(), self.index()),
    {
        proof {
            use_type_invariant(self);
        }
        self.len
    }

    /// The indexes of the keys' tokens.
    pub fn item_indexes(&self) -> (r: Arc<Vec<u32>>)
        ensures
            as_ints(r@) == items(self.toks(), self.index()),
    {
        proof {
            use_type_invariant(self);
        }
        share(&self.item_indexes)
    }

    /// The key and the value of pair `index`.
    pub fn item(&self, index: usize) -> (r: (BdecodeNode, BdecodeNode))
        requires
            index < item_count(self.toks(), self.index()),
        ensures
            r.0.index() == items(self.toks(), self.index())[index as int],
            r.1.index() == items(self.toks(), self.index())[index as int] + 1,
            r.0.kind() == BdecodeTokenType::Str,
            r.1.kind() == self.toks()[r.1.index()].kind,
            r.0.toks() == self.toks() && r.1.toks() == self.toks(),
            r.0.buf() == self.buf() && r.1.buf() == self.buf(),
    {
        proof {
            use_type_invariant(self);
            lemma_items(self.buffer@, views(self.tokens@), self.token_index as int);
            lemma_dict_keys(self.buffer@, views(self.tokens@), self.token_index as int);
            assert(as_ints(self.item_indexes@)[index as int] == self.item_indexes@[index as int] as int);
            crate::navigate::lemma_str_token(self.buffer@, views(self.tokens@), self.item_indexes@[index as int] as int);
        }
        let key_token_idx = self.item_indexes[index];
        let key_node = BdecodeNode::new(key_token_idx, share(&self.tokens), share(&self.buffer));
        let val_token_idx = key_token_idx + self.tokens[key_token_idx as usize].next_item();
        let val_node = BdecodeNode::new(val_token_idx, share(&self.tokens), share(&self.buffer));
        (key_node, val_node)
    }

    /// The index of the value of the first key whose bytes are `key`.
    fn find_index(&self, key: &[u8]) -> (r: Option<u32>)
        ensures
            match find_value(self.buf(), self.toks(), self.index(), key@) {
                Some(v) => r == Some(v as u32) && 0 <= v < self.toks().len(),
                None => r is None,
            },
    {
        proof {
            use_type_invariant(self);
            let t = views(self.tokens@);
            let i = self.token_index as int;
            lemma_items(self.buffer@, t, i);
            lemma_dict_keys(self.buffer@, t, i);
            assert(as_ints(self.item_indexes@) == items(t, i));
            assert forall|j: int| 0 <= j < self.item_indexes@.len() implies (#[trigger] self.item_indexes@[j]) < self.tokens@.len() - 1
                && t[self.item_indexes@[j] as int].kind == BdecodeTokenType::Str by {
                assert(as_ints(self.item_indexes@)[j] == self.item_indexes@[j] as int);
            }
            lemma_find_value_bound(self.buffer@, t, i, key@);
        }
        find_in(self.buffer.as_slice(), self.tokens.as_slice(), &self.item_indexes, key)
    }

    /// The value of the first key whose bytes are `key`.
    pub fn find(&self, key: &[u8]) -> (r: Option<BdecodeNode>)
        ensures
            match find_value(self.buf(), self.toks(), self.index(), key@) {
                Some(v) => r is Some && r->Some_0.index() == v && r->Some_0.toks() == self.toks()
                    && r->Some_0.buf() == self.buf() && r->Some_0.kind() == self.toks()[v].kind,
                None => r is None,
            },
    {
        proof {
            use_type_invariant(self);
        }
        match self.find_index(key) {
            Some(v) => Some(BdecodeNode::new(v, share(&self.tokens), share(&self.buffer))),
            None => None,
        }
    }

    /// The value of the first key whose bytes are `key`, when it is a string.
    pub fn find_as_str(&self, key: &[u8]) -> (r: Option<&[u8]>)
        ensures
            match find_value(self.buf(), self.toks(), self.index(), key@) {
                Some(v) => if self.toks()[v].kind == BdecodeTokenType::Str {
                    r is Some && r->Some_0@ == str_bytes(self.buf(), self.toks(), v)
                } else {
                    r is None
                },
                None => r is None,
            },
    {
        proof {
            use_type_invariant(self);
        }
        match self.find_index(key) {
            Some(v) => {
                if self.tokens[v as usize].node_type() == BdecodeTokenType::Str {
                    Some(str_value(self.buffer.as_slice(), self.tokens.as_slice(), v as usize))
                } else {
                    None
                }
            },
            None => None,
        }
    }

    /// The value of the first key whose bytes are `key`, when it is an
    /// integer that fits an `i64`.
    pub fn find_as_int(&self, key: &[u8]) -> (r: Option<i64>)
        ensures
            match find_value(self.buf(), self.toks(), self.index(), key@) {
                Some(v) => if self.toks()[v].kind == BdecodeTokenType::Int && int_value(self.buf(), self.toks(), v) is Ok {
                    r == Some(int_value(self.buf(), self.toks(), v)->Ok_0 as i64)
                } else {
                    r is None
                },
                None => r is None,
            },
    {
        proof {
            use_type_invariant(self);
        }
        match self.find_index(key) {
            Some(v) => {
                if self.tokens[v as usize].node_type() == BdecodeTokenType::Int {
                    match int_value_at(self.buffer.as_slice(), self.tokens.as_slice(), v as usize) {
                        Ok(x) => Some(x),
                        Err(_) => None,
                    }
                } else {
                    None
                }
            },
            None => None,
        }
    }

    /// The elements of the value of the first key whose bytes are `key`, when it is a list.
    pub fn find_as_list(&self, key: &[u8]) -> (r: Option<Vec<BdecodeNode>>)
        ensures
            match find_value(self.buf(), self.toks(), self.index(), key@) {
                Some(v) => if self.toks()[v].kind == BdecodeTokenType::List {
                    r is Some && list_nodes(r->Some_0@, self.buf(), self.toks(), v)
                } else {
                    r is None
                },
                None => r is None,
            },
    {
        match self.find(key) {
            Some(BdecodeNode::List(node)) => Some(node.items()),
            _ => None,
        }
    }

    /// The pairs of the value of the first key whose bytes are `key`, when it
    /// is a dictionary: each key's bytes with its value.
    pub fn find_as_dict(&self, key: &[u8]) -> (r: Option<Vec<(&[u8], BdecodeNode)>>)
        ensures
            match find_value(self.buf(), self.toks(), self.index(), key@) {
                Some(v) => if self.toks()[v].kind == BdecodeTokenType::Dict {
                    r is Some && dict_pairs(r->Some_0@, self.buf(), self.toks(), v)
                } else {
                    r is None
                },
                None => r is None,
            },
    {
        proof {
            use_type_invariant(self);
        }
        match self.find_index(key) {
            Some(v) => {
                if self.tokens[v as usize].node_type() == BdecodeTokenType::Dict {
                    Some(pairs_of(&self.buffer, &self.tokens, v))
                } else {
                    None
                }
            },
            None => None,
        }
    }
}

/// The nodes `nodes` are the elements of the list at `i`, in order.
pub open spec fn list_nodes(nodes: Seq<BdecodeNode>, buf: Seq<u8>, t: Seq<TokenView>, i: int) -> bool {
    &&& nodes.len() == item_count(t, i)
    &&& forall|j: int| 0 <= j < nodes.len() ==> {
        &&& (#[trigger] nodes[j]).index() == items(t, i)[j]
        &&& nodes[j].toks() == t
        &&& nodes[j].buf() == buf
        &&& nodes[j].kind() == t[nodes[j].index()].kind
    }
}

/// The pairs `pairs` are the keys' bytes and the values of the dictionary at `i`, in order.
pub open spec fn dict_pairs(pairs: Seq<(&[u8], BdecodeNode)>, buf: Seq<u8>, t: Seq<TokenView>, i: int) -> bool {
    &&& pairs.len() == item_count(t, i)
    &&& forall|j: int| 0 <= j < pairs.len() ==> {
        &&& (#[trigger] pairs[j]).0@ == str_bytes(buf, t, items(t, i)[j])
        &&& pairs[j].1.index() == items(t, i)[j] + 1
        &&& pairs[j].1.toks() == t
        &&& pairs[j].1.buf() == buf
        &&& pairs[j].1.kind() == t[pairs[j].1.index()].kind
    }
}

/// A value found in a dictionary is a token of the stream.
pub proof fn lemma_find_value_bound(buf: Seq<u8>, t: Seq<TokenView>, i: int, key: Seq<u8>)
    requires
        tokens_wf(buf, t),
        0 <= i < t.len(),
        t[i].kind == BdecodeTokenType::Dict,
    ensures
        find_value(buf, t, i, key) is Some ==> 0 <= find_value(buf, t, i, key)->Some_0 < t.len(),
{
    lemma_items(buf, t, i);
    lemma_find_from_in(buf, t, items(t, i), key, 0);
}

proof fn lemma_find_from_in(buf: Seq<u8>, t: Seq<TokenView>, keys: Seq<int>, key: Seq<u8>, j: int)
    requires
        forall|k: int| 0 <= k < keys.len() ==> 0 <= #[trigger] keys[k] < t.len() - 1,
    ensures
        crate::navigate::find_from(buf, t, keys, key, j) is Some ==> 0 <= crate::navigate::find_from(buf, t, keys, key, j)->Some_0 < t.len(),
    decreases keys.len() - j,
{
    if 0 <= j < keys.len() {
        lemma_find_from_in(buf, t, keys, key, j + 1);
    }
}

/// The pairs of the dictionary at `v`.
fn pairs_of<'a>(buffer: &'a Arc<Vec<u8>>, tokens: &Arc<Vec<BdecodeToken>>, v: u32) -> (r: Vec<(&'a [u8], BdecodeNode)>)
    requires
        stream_ok(buffer@, views(tokens@)),
        v < tokens@.len(),
        views(tokens@)[v as int].kind == BdecodeTokenType::Dict,
    ensures
        dict_pairs(r@, buffer@, views(tokens@), v as int),
{
    let ghost t = views(tokens@);
    let (keys, n) = container_items(tokens, v, Ghost(buffer@));
    proof {
        lemma_items(buffer@, t, v as int);
        lemma_dict_keys(buffer@, t, v as int);
    }
    let mut out: Vec<(&'a [u8], BdecodeNode)> = Vec::new();
    let mut j: usize = 0;
    while j < n
        invariant
            stream_ok(buffer@, t),
            t == views(tokens@),
            v < t.len(),
            t[v as int].kind == BdecodeTokenType::Dict,
            n == item_count(t, v as int),
            n == keys@.len(),
            as_ints(keys@) == items(t, v as int),
            forall|k: int| 0 <= k < items(t, v as int).len() ==> v < #[trigger] items(t, v as int)[k] < t.len() - 1,
            forall|k: int| 0 <= k < items(t, v as int).len() ==> t[#[trigger] items(t, v as int)[k]].kind == BdecodeTokenType::Str,
            j <= n,
            out@.len() == j,
            forall|k: int| 0 <= k < j ==> {
                &&& (#[trigger] out@[k]).0@ == str_bytes(buffer@, t, items(t, v as int)[k])
                &&& out@[k].1.index() == items(t, v as int)[k] + 1
                &&& out@[k].1.toks() == t
                &&& out@[k].1.buf() == buffer@
                &&& out@[k].1.kind() == t[out@[k].1.index()].kind
            },
        decreases n - j,
    {
        let k = keys[j];
        proof {
            assert(as_ints(keys@)[j as int] == k as int);
            assert(t[k as int].kind == BdecodeTokenType::Str);
            crate::navigate::lemma_str_token(buffer@, t, k as int);
        }
        let bytes = str_value(buffer.as_slice(), tokens.as_slice(), k as usize);
        let value = BdecodeNode::new(k + 1, share(tokens), share(buffer));
        out.push((bytes, value));
        j += 1;
    }
    out
}

impl List {
    /// All the elements, in order.
    pub fn items(&self) -> (r: Vec<BdecodeNode>)
        ensures
            list_nodes(r@, self.buf(), self.toks(), self.index()),
    {
        proof {
            use_type_invariant(self);
        }
        let mut nodes: Vec<BdecodeNode> = Vec::new();
        let n = self.len();
        let mut i: usize = 0;
        while i < n
            invariant
                n == item_count(self.toks(), self.index()),
                i <= n,
                nodes@.len() == i,
                forall|j: int| 0 <= j < i ==> {
                    &&& (#[trigger] nodes@[j]).index() == items(self.toks(), self.index())[j]
                    &&& nodes@[j].toks() == self.toks()
                    &&& nodes@[j].buf() == self.buf()
                    &&& nodes@[j].kind() == self.toks()[nodes@[j].index()].kind
                },
            decreases n - i,
        {
            let node = self.item(i);
            nodes.push(node);
            i += 1;
        }
        nodes
    }
}

impl BdecodeNode {
    /// The kind of the node.
    pub open spec fn kind(&self) -> BdecodeTokenType {
        match self {
            BdecodeNode::Dict(_) => BdecodeTokenType::Dict,
            BdecodeNode::List(_) => BdecodeTokenType::List,
            BdecodeNode::Str(_) => BdecodeTokenType::Str,
            BdecodeNode::Int(_) => BdecodeTokenType::Int,
            BdecodeNode::End(_) => BdecodeTokenType::End,
        }
    }

    /// The index of the node's token.
    pub closed spec fn index(&self) -> int {
        match self {
            BdecodeNode::Dict(n) => n.index(),
            BdecodeNode::List(n) => n.index(),
            BdecodeNode::Str(n) => n.index(),
            BdecodeNode::Int(n) => n.index(),
            BdecodeNode::End(n) => n.index(),
        }
    }

    /// The tokens the node stands on.
    pub closed spec fn toks(&self) -> Seq<TokenView> {
        match self {
            BdecodeNode::Dict(n) => n.toks(),
            BdecodeNode::List(n) => n.toks(),
            BdecodeNode::Str(n) => n.toks(),
            BdecodeNode::Int(n) => n.toks(),
            BdecodeNode::End(n) => n.toks(),
        }
    }

    /// The buffer the node stands on.
    pub closed spec fn buf(&self) -> Seq<u8> {
        match self {
            BdecodeNode::Dict(n) => n.buf(),
            BdecodeNode::List(n) => n.buf(),
            BdecodeNode::Str(n) => n.buf(),
            BdecodeNode::Int(n) => n.buf(),
            BdecodeNode::End(n) => n.buf(),
        }
    }

    /// Another handle on the same node.
    pub fn duplicate(&self) -> (r: BdecodeNode)
        ensures
            r.index() == self.index(),
            r.toks() == self.toks(),
            r.buf() == self.buf(),
            r.kind() == self.kind(),
    {
        match self {
            BdecodeNode::Dict(n) => {
                proof {
                    use_type_invariant(n);
                }
                BdecodeNode::Dict(Dict {
                    token_index: n.token_index,
                    tokens: share(&n.tokens),
                    buffer: share(&n.buffer),
                    item_indexes: share(&n.item_indexes),
                    len: n.len,
                })
            },
            BdecodeNode::List(n) => {
                proof {
                    use_type_invariant(n);
                }
                BdecodeNode::List(List {
                    token_index: n.token_index,
                    tokens: share(&n.tokens),
                    buffer: share(&n.buffer),
                    item_indexes: share(&n.item_indexes),
                    len: n.len,
                })
            },
            BdecodeNode::Str(n) => {
                proof {
                    use_type_invariant(n);
                }
                BdecodeNode::Str(Str { token_index: n.token_index, tokens: share(&n.tokens), buffer: share(&n.buffer) })
            },
            BdecodeNode::Int(n) => {
                proof {
                    use_type_invariant(n);
                }
                BdecodeNode::Int(Int { token_index: n.token_index, tokens: share(&n.tokens), buffer: share(&n.buffer) })
            },
            BdecodeNode::End(n) => {
                proof {
                    use_type_invariant(n);
                }
                BdecodeNode::End(End { token_index: n.token_index, tokens: share(&n.tokens), buffer: share(&n.buffer) })
            },
        }
    }

    /// The node for token `token_idx`, of the shape that the token's kind gives.
    pub fn new(token_idx: u32, tokens: Arc<Vec<BdecodeToken>>, buffer: Arc<Vec<u8>>) -> (r: BdecodeNode)
        requires
            stream_ok(buffer@, views(tokens@)),
            token_idx < tokens@.len(),
        ensures
            r.index() == token_idx,
            r.toks() == views(tokens@),
            r.buf() == buffer@,
            r.kind() == views(tokens@)[token_idx as int].kind,
    {
        proof {
            lemma_kind_defined(buffer@, views(tokens@), token_idx as int);
        }
        let kind = tokens[token_idx as usize].node_type();
        match kind {
            BdecodeTokenType::Str => BdecodeNode::Str(Str::new(buffer, tokens, token_idx)),
            BdecodeTokenType::Int => BdecodeNode::Int(Int::new(buffer, tokens, token_idx)),
            BdecodeTokenType::List => {
                let (item_indexes, len) = container_items(&tokens, token_idx, Ghost(buffer@));
                BdecodeNode::List(List::new(buffer, tokens, token_idx, item_indexes, len))
            },
            BdecodeTokenType::Dict => {
                let (item_indexes, len) = container_items(&tokens, token_idx, Ghost(buffer@));
                BdecodeNode::Dict(Dict::new(buffer, tokens, token_idx, item_indexes, len))
            },
            // an end marker: no token of a well-formed stream is `Undefined`
            _ => BdecodeNode::End(End::new(buffer, tokens, token_idx)),
        }
    }

    /// The value of an integer node, or `Overflow` when it does not fit an `i64`.
    pub fn as_int(&self) -> (r: Result<i64, BdecodeError>)
        requires
            self.kind() == BdecodeTokenType::Int,
        ensures
            match int_value(self.buf(), self.toks(), self.index()) {
                Ok(v) => r is Ok && r->Ok_0 == v,
                Err(e) => r is Err && r->Err_0@ == e,
            },
    {
        match self {
            BdecodeNode::Int(n) => n.value(),
            // excluded by `requires`
            _ => Err(BdecodeError::ExpectedValue(0)),
        }
    }

    /// The bytes of a string node, borrowed from the buffer.
    pub fn as_str(&self) -> (r: &[u8])
        requires
            self.kind() == BdecodeTokenType::Str,
        ensures
            r@ == str_bytes(self.buf(), self.toks(), self.index()),
    {
        match self {
            BdecodeNode::Str(n) => n.value(),
            // excluded by `requires`
            _ => &[],
        }
    }

    /// The number of elements of a list, or of key-value pairs of a dictionary.
    pub fn len(&self) -> (r: usize)
        requires
            self.kind() == BdecodeTokenType::List || self.kind() == BdecodeTokenType::Dict,
        ensures
            r == item_count(self.toks(), self.index()),
    {
        match self {
            BdecodeNode::List(n) => n.len(),
            BdecodeNode::Dict(n) => n.len(),
            // excluded by `requires`
            _ => 0,
        }
    }

    /// Element `index` of a list.
    pub fn list_item(&self, index: usize) -> (r: BdecodeNode)
        requires
            self.kind() == BdecodeTokenType::List,
            index < item_count(self.toks(), self.index()),
        ensures
            r.index() == items(self.toks(), self.index())[index as int],
            r.toks() == self.toks(),
            r.buf() == self.buf(),
            r.kind() == self.toks()[r.index()].kind,
    {
        match self {
            BdecodeNode::List(n) => n.item(index),
            // excluded by `requires`
            _ => self.duplicate(),
        }
    }

    /// Element `index` of a list, which is an integer, as its value.
    pub fn list_item_as_int(&self, index: usize) -> (r: Result<i64, BdecodeError>)
        requires
            self.kind() == BdecodeTokenType::List,
            index < item_count(self.toks(), self.index()),
            self.toks()[items(self.toks(), self.index())[index as int]].kind == BdecodeTokenType::Int,
        ensures
            match int_value(self.buf(), self.toks(), items(self.toks(), self.index())[index as int]) {
                Ok(v) => r is Ok && r->Ok_0 == v,
                Err(e) => r is Err && r->Err_0@ == e,
            },
    {
        match self {
            BdecodeNode::List(n) => n.as_int(index),
            // excluded by `requires`
            _ => Err(BdecodeError::ExpectedValue(0)),
        }
    }

    /// Element `index` of a list, which is a string, as its bytes.
    pub fn list_item_as_str(&self, index: usize) -> (r: &[u8])
        requires
            self.kind() == BdecodeTokenType::List,
            index < item_count(self.toks(), self.index()),
            self.toks()[items(self.toks(), self.index())[index as int]].kind == BdecodeTokenType::Str,
        ensures
            r@ == str_bytes(self.buf(), self.toks(), items(self.toks(), self.index())[index as int]),
    {
        match self {
            BdecodeNode::List(n) => n.as_str(index),
            // excluded by `requires`
            _ => &[],
        }
    }

    /// Key and value of pair `index` of a dictionary.
    pub fn dict_item(&self, index: usize) -> (r: (BdecodeNode, BdecodeNode))
        requires
            self.kind() == BdecodeTokenType::Dict,
            index < item_count(self.toks(), self.index()),
        ensures
            r.0.index() == items(self.toks(), self.index())[index as int],
            r.1.index() == items(self.toks(), self.index())[index as int] + 1,
            r.0.kind() == BdecodeTokenType::Str,
            r.1.kind() == self.toks()[r.1.index()].kind,
            r.0.toks() == self.toks() && r.1.toks() == self.toks(),
            r.0.buf() == self.buf() && r.1.buf() == self.buf(),
    {
        match self {
            BdecodeNode::Dict(n) => n.item(index),
            // excluded by `requires`
            _ => (self.duplicate(), self.duplicate()),
        }
    }

    /// The value of the first key of a dictionary whose bytes are `key`.
    pub fn dict_find(&self, key: &[u8]) -> (r: Option<BdecodeNode>)
        requires
            self.kind() == BdecodeTokenType::Dict,
        ensures
            match find_value(self.buf(), self.toks(), self.index(), key@) {
                Some(v) => r is Some && r->Some_0.index() == v && r->Some_0.toks() == self.toks()
                    && r->Some_0.buf() == self.buf() && r->Some_0.kind() == self.toks()[v].kind,
                None => r is None,
            },
    {
        match self {
            BdecodeNode::Dict(n) => n.find(key),
            // excluded by `requires`
            _ => None,
        }
    }

    /// The value of the first key whose bytes are `key`, when it is a string.
    pub fn dict_find_as_str(&self, key: &[u8]) -> (r: Option<&[u8]>)
        requires
            self.kind() == BdecodeTokenType::Dict,
        ensures
            match find_value(self.buf(), self.toks(), self.index(), key@) {
                Some(v) => if self.toks()[v].kind == BdecodeTokenType::Str {
                    r is Some && r->Some_0@ == str_bytes(self.buf(), self.toks(), v)
                } else {
                    r is None
                },
                None => r is None,
            },
    {
        match self {
            BdecodeNode::Dict(n) => n.find_as_str(key),
            // excluded by `requires`
            _ => None,
        }
    }

    /// The value of the first key whose bytes are `key`, when it is an
    /// integer that fits an `i64`.
    pub fn dict_find_as_int(&self, key: &[u8]) -> (r: Option<i64>)
        requires
            self.kind() == BdecodeTokenType::Dict,
        ensures
            match find_value(self.buf(), self.toks(), self.index(), key@) {
                Some(v) => if self.toks()[v].kind == BdecodeTokenType::Int && int_value(self.buf(), self.toks(), v) is Ok {
                    r == Some(int_value(self.buf(), self.toks(), v)->Ok_0 as i64)
                } else {
                    r is None
                },
                None => r is None,
            },
    {
        match self {
            BdecodeNode::Dict(n) => n.find_as_int(key),
            // excluded by `requires`
            _ => None,
        }
    }

    /// The elements of the value of the first key whose bytes are `key`, when it is a list.
    pub fn dict_find_as_list(&self, key: &[u8]) -> (r: Option<Vec<BdecodeNode>>)
        requires
            self.kind() == BdecodeTokenType::Dict,
        ensures
            match find_value(self.buf(), self.toks(), self.index(), key@) {
                Some(v) => if self.toks()[v].kind == BdecodeTokenType::List {
                    r is Some && list_nodes(r->Some_0@, self.buf(), self.toks(), v)
                } else {
                    r is None
                },
                None => r is None,
            },
    {
        match self {
            BdecodeNode::Dict(n) => n.find_as_list(key),
            // excluded by `requires`
            _ => None,
        }
    }

    /// The pairs of the value of the first key whose bytes are `key`, when it
    /// is a dictionary.
    pub fn dict_find_as_dict(&self, key: &[u8]) -> (r: Option<Vec<(&[u8], BdecodeNode)>>)
        requires
            self.kind() == BdecodeTokenType::Dict,
        ensures
            match find_value(self.buf(), self.toks(), self.index(), key@) {
                Some(v) => if self.toks()[v].kind == BdecodeTokenType::Dict {
                    r is Some && dict_pairs(r->Some_0@, self.buf(), self.toks(), v)
                } else {
                    r is None
                },
                None => r is None,
            },
    {
        match self {
            BdecodeNode::Dict(n) => n.find_as_dict(key),
            // excluded by `requires`
            _ => None,
        }
    }

    /// Parses `buffer`: at most `depth_limit` open containers (100 by
    /// default) and `token_limit` tokens (1,000,000 by default). The node is
    /// the root value.
    pub fn parse(buffer: Vec<u8>, depth_limit: Option<usize>, token_limit: Option<i32>) -> (r: Result<BdecodeNode, BdecodeError>)
        ensures
            match tokenize_spec(
                buffer@,
                (match depth_limit { Some(d) => d, None => DEFAULT_DEPTH_LIMIT }) as nat,
                (match token_limit { Some(l) => l, None => DEFAULT_TOKEN_LIMIT }) as int,
            ) {
                Ok(t) => r is Ok && r->Ok_0.index() == 0 && r->Ok_0.toks() == t && r->Ok_0.buf() == buffer@
                    && r->Ok_0.kind() == t[0].kind,
                Err(e) => r is Err && r->Err_0@ == e,
            },
    {
        let depth_limit = match depth_limit {
            Some(d) => d,
            None => DEFAULT_DEPTH_LIMIT,
        };
        let token_limit = match token_limit {
            Some(l) => l,
            None => DEFAULT_TOKEN_LIMIT,
        };
        match tokenize(buffer.as_slice(), depth_limit, token_limit) {
            Ok(tokens) => Ok(BdecodeNode::new(0, Arc::new(tokens), Arc::new(buffer))),
            Err(e) => Err(e),
        }
    }

    /// Parses `buffer` with the default limits.
    pub fn parse_buffer(buffer: Vec<u8>) -> (r: Result<BdecodeNode, BdecodeError>)
        ensures
            match tokenize_spec(buffer@, DEFAULT_DEPTH_LIMIT as nat, DEFAULT_TOKEN_LIMIT as int) {
                Ok(t) => r is Ok && r->Ok_0.index() == 0 && r->Ok_0.toks() == t && r->Ok_0.buf() == buffer@
                    && r->Ok_0.kind() == t[0].kind,
                Err(e) => r is Err && r->Err_0@ == e,
            },
    {
        Self::parse(buffer, None, None)
    }
}

impl IBdecodeNode for Str {
    open spec fn node_index(&self) -> int {
        self.index()
    }

    open spec fn node_tokens(&self) -> Seq<TokenView> {
        self.toks()
    }

    open spec fn kind_of(&self) -> BdecodeTokenType {
        self.toks()[self.index()].kind
    }

    fn token_index(&self) -> (r: usize) {
        self.token_index as usize
    }

    fn tokens(&self) -> (r: Arc<Vec<BdecodeToken>>) {
        share(&self.tokens)
    }

    fn token_type(&self) -> (r: BdecodeTokenType) {
        proof {
            use_type_invariant(self);
        }
        self.tokens[self.token_index as usize].node_type()
    }
}

impl IBdecodeNode for Int {
    open spec fn node_index(&self) -> int {
        self.index()
    }

    open spec fn node_tokens(&self) -> Seq<TokenView> {
        self.toks()
    }

    open spec fn kind_of(&self) -> BdecodeTokenType {
        self.toks()[self.index()].kind
    }

    fn token_index(&self) -> (r: usize) {
        self.token_index as usize
    }

    fn tokens(&self) -> (r: Arc<Vec<BdecodeToken>>) {
        share(&self.tokens)
    }

    fn token_type(&self) -> (r: BdecodeTokenType) {
        proof {
            use_type_invariant(self);
        }
        self.tokens[self.token_index as usize].node_type()
    }
}

impl IBdecodeNode for End {
    open spec fn node_index(&self) -> int {
        self.index()
    }

    open spec fn node_tokens(&self) -> Seq<TokenView> {
        self.toks()
    }

    open spec fn kind_of(&self) -> BdecodeTokenType {
        self.toks()[self.index()].kind
    }

    fn token_index(&self) -> (r: usize) {
        self.token_index as usize
    }

    fn tokens(&self) -> (r: Arc<Vec<BdecodeToken>>) {
        share(&self.tokens)
    }

    fn token_type(&self) -> (r: BdecodeTokenType) {
        proof {
            use_type_invariant(self);
        }
        self.tokens[self.token_index as usize].node_type()
    }
}

impl IBdecodeNode for List {
    open spec fn node_index(&self) -> int {
        self.index()
    }

    open spec fn node_tokens(&self) -> Seq<TokenView> {
        self.toks()
    }

    open spec fn kind_of(&self) -> BdecodeTokenType {
        self.toks()[self.index()].kind
    }

    fn token_index(&self) -> (r: usize) {
        self.token_index as usize
    }

    fn tokens(&self) -> (r: Arc<Vec<BdecodeToken>>) {
        share(&self.tokens)
    }

    fn token_type(&self) -> (r: BdecodeTokenType) {
        proof {
            use_type_invariant(self);
        }
        self.tokens[self.token_index as usize].node_type()
    }
}

impl IBdecodeNode for Dict {
    open spec fn node_index(&self) -> int {
        self.index()
    }

    open spec fn node_tokens(&self) -> Seq<TokenView> {
        self.toks()
    }

    open spec fn kind_of(&self) -> BdecodeTokenType {
        self.toks()[self.index()].kind
    }

    fn token_index(&self) -> (r: usize) {
        self.token_index as usize
    }

    fn tokens(&self) -> (r: Arc<Vec<BdecodeToken>>) {
        share(&self.tokens)
    }

    fn token_type(&self) -> (r: BdecodeTokenType) {
        proof {
            use_type_invariant(self);
        }
        self.tokens[self.token_index as usize].node_type()
    }
}

impl Str {
    /// The JSON of the node; a leaf is laid out the same in every style.
    pub fn to_json_with_style(&self, style: Style) -> (r: String)
        ensures
            r@ == ascii_chars(json(self.buf(), self.toks(), self.index(), style)),
    {
        proof {
            use_type_invariant(self);
            assert(json(self.buf(), self.toks(), self.index(), style) == json(self.buf(), self.toks(), self.index(), Style::Compact));
        }
        json_string(self.buffer.as_slice(), self.tokens.as_slice(), self.token_index as usize, Style::Compact)
    }
}

impl Int {
    /// The JSON of the node; a leaf is laid out the same in every style.
    pub fn to_json_with_style(&self, style: Style) -> (r: String)
        ensures
            r@ == ascii_chars(json(self.buf(), self.toks(), self.index(), style)),
    {
        proof {
            use_type_invariant(self);
            assert(json(self.buf(), self.toks(), self.index(), style) == json(self.buf(), self.toks(), self.index(), Style::Compact));
        }
        json_string(self.buffer.as_slice(), self.tokens.as_slice(), self.token_index as usize, Style::Compact)
    }
}

impl End {
    /// The JSON of the node; a leaf is laid out the same in every style.
    pub fn to_json_with_style(&self, style: Style) -> (r: String)
        ensures
            r@ == ascii_chars(json(self.buf(), self.toks(), self.index(), style)),
    {
        proof {
            use_type_invariant(self);
            assert(json(self.buf(), self.toks(), self.index(), style) == json(self.buf(), self.toks(), self.index(), Style::Compact));
        }
        json_string(self.buffer.as_slice(), self.tokens.as_slice(), self.token_index as usize, Style::Compact)
    }
}

impl List {
    /// The JSON of the node, laid out as `style` says.
    pub fn to_json_with_style(&self, style: Style) -> (r: String)
        requires
            style_fits(style, crate::limits::BUFFER_MAX_OFFSET as int + 1),
        ensures
            r@ == ascii_chars(json(self.buf(), self.toks(), self.index(), style)),
    {
        proof {
            use_type_invariant(self);
        }
        json_string(self.buffer.as_slice(), self.tokens.as_slice(), self.token_index as usize, style)
    }
}

impl Dict {
    /// The JSON of the node on one line.
    pub fn to_json(&self) -> (r: String)
        ensures
            r@ == ascii_chars(json(self.buf(), self.toks(), self.index(), Style::Compact)),
    {
        proof {
            use_type_invariant(self);
        }
        json_string(self.buffer.as_slice(), self.tokens.as_slice(), self.token_index as usize, Style::Compact)
    }

    /// The JSON of the node, laid out as `style` says.
    pub fn to_json_with_style(&self, style: Style) -> (r: String)
        requires
            style_fits(style, crate::limits::BUFFER_MAX_OFFSET as int + 1),
        ensures
            r@ == ascii_chars(json(self.buf(), self.toks(), self.index(), style)),
    {
        proof {
            use_type_invariant(self);
        }
        json_string(self.buffer.as_slice(), self.tokens.as_slice(), self.token_index as usize, style)
    }
}

impl BdecodeNode {
    /// The JSON of the node, laid out as `style` says.
    pub fn to_json_with_style(&self, style: Style) -> (r: String)
        requires
            style_fits(style, crate::limits::BUFFER_MAX_OFFSET as int + 1),
        ensures
            r@ == ascii_chars(json(self.buf(), self.toks(), self.index(), style)),
    {
        match self {
            BdecodeNode::Dict(n) => n.to_json_with_style(style),
            BdecodeNode::List(n) => n.to_json_with_style(style),
            BdecodeNode::Str(n) => n.to_json_with_style(style),
            BdecodeNode::Int(n) => n.to_json_with_style(style),
            BdecodeNode::End(n) => n.to_json_with_style(style),
        }
    }

    /// The JSON of the node on one line, items separated by `", "`.
    pub fn to_json(&self) -> (r: String)
        ensures
            r@ == ascii_chars(json(self.buf(), self.toks(), self.index(), Style::Compact)),
    {
        self.to_json_with_style(Style::Compact)
    }

    /// The JSON of the node with each item on its own line, indented by 4
    /// spaces per level.
    pub fn to_json_pretty(&self) -> (r: String)
        ensures
            r@ == ascii_chars(json(self.buf(), self.toks(), self.index(), Style::Pretty(0))),
    {
        self.to_json_with_style(Style::Pretty(0))
    }
}

} // verus!
