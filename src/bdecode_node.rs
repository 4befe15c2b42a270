//! A single node type over a tokenized buffer: every node carries the
//! indexes of its items, and accessors check the kind.
use std::sync::Arc;

use vstd::prelude::*;

use crate::error::BdecodeError;
use crate::limits::{DEFAULT_DEPTH_LIMIT, DEFAULT_TOKEN_LIMIT};
use crate::navigate::{
    as_ints, find_in, find_value, gen_item_indexes, int_value, int_value_at, item_count, items,
    lemma_dict_keys, lemma_items, lemma_str_token, share, str_bytes, str_value, stream_ok,
};
use crate::token::{BdecodeToken, BdecodeTokenType, TokenView};
use crate::tokenizer::{tokenize, tokenize_spec, views};

verus! {

/// A view on one token of a tokenized buffer, with the indexes of its items.
#[derive(Debug)]
pub struct BdecodeNode {
    token_index: u32,
    item_indexes: Arc<Vec<u32>>,
    len: usize,
    tokens: Arc<Vec<BdecodeToken>>,
    buffer: Arc<Vec<u8>>,
}

/// Token `idx` over `buf`, with its items and their number.
pub open spec fn view_ok(buf: Seq<u8>, t: Seq<TokenView>, idx: int, item_indexes: Seq<u32>, len: usize) -> bool {
    &&& stream_ok(buf, t)
    &&& 0 <= idx < t.len()
    &&& as_ints(item_indexes) == items(t, idx)
    &&& len == item_count(t, idx)
    &&& len == item_indexes.len()
}

/// The node on token `idx`, with its items.
fn node_at(buffer: &Arc<Vec<u8>>, tokens: &Arc<Vec<BdecodeToken>>, idx: u32) -> (r: BdecodeNode)
    requires
        stream_ok(buffer@, views(tokens@)),
        idx < tokens@.len(),
    ensures
        r.index() == idx,
        r.toks() == views(tokens@),
        r.buf() == buffer@,
{
    let (item_indexes, len) = gen_item_indexes(tokens.as_slice(), idx as usize);
    proof {
        let t = views(tokens@);
        lemma_items(buffer@, t, idx as int);
        assert(as_ints(item_indexes@) =~= items(t, idx as int));
    }
    BdecodeNode { token_index: idx, item_indexes, len, tokens: share(tokens), buffer: share(buffer) }
}

impl BdecodeNode {
    #[verifier::type_invariant]
    spec fn inv(&self) -> bool {
        view_ok(self.buffer@, views(self.tokens@), self.token_index as int, self.item_indexes@, self.len)
    }

    /// The index of the node's token.
    pub closed spec fn index(&self) -> int {
        self.token_index as int
    }

    /// The tokens the node stands on.
    pub closed spec fn toks(&self) -> Seq<TokenView> {
        views(self.tokens@)
    }

    /// The buffer the node stands on.
    pub closed spec fn buf(&self) -> Seq<u8> {
        self.buffer@
    }

    /// The kind of the node's token.
    pub open spec fn kind(&self) -> BdecodeTokenType {
        self.toks()[self.index()].kind
    }

    /// Parses `buffer` with the default limits. The node is the root value.
    pub fn with_buffer(buffer: Arc<Vec<u8>>) -> (r: Result<Self, BdecodeError>)
        ensures
            match tokenize_spec(buffer@, DEFAULT_DEPTH_LIMIT as nat, DEFAULT_TOKEN_LIMIT as int) {
                Ok(t) => r is Ok && r->Ok_0.index() == 0 && r->Ok_0.toks() == t && r->Ok_0.buf() == buffer@,
                Err(e) => r is Err && r->Err_0@ == e,
            },
    {
        Self::new(buffer, None, None)
    }

    /// Parses `buffer`: at most `depth_limit` open containers (100 by
    /// default) and `token_limit` tokens (1,000,000 by default).
    pub fn new(buffer: Arc<Vec<u8>>, depth_limit: Option<usize>, token_limit: Option<i32>) -> (r: Result<Self, BdecodeError>)
        ensures
            match tokenize_spec(
                buffer@,
                (match depth_limit { Some(d) => d, None => DEFAULT_DEPTH_LIMIT }) as nat,
                (match token_limit { Some(l) => l, None => DEFAULT_TOKEN_LIMIT }) as int,
            ) {
                Ok(t) => r is Ok && r->Ok_0.index() == 0 && r->Ok_0.toks() == t && r->Ok_0.buf() == buffer@,
                Err(e) => r is Err && r->Err_0@ == e,
            },
    {
        let depth_limit = match depth_limit {
            Some(d) => d,
            None => DEFAULT_DEPTH_LIMIT,
        };
        let token_limit = match token_limit {
            Some(l) => l,
            None => DEFAULT_TOKEN_LIMIT,
        };
        match tokenize(buffer.as_slice(), depth_limit, token_limit) {
            Ok(tokens) => Ok(node_at(&buffer, &Arc::new(tokens), 0)),
            Err(e) => Err(e),
        }
    }

    /// The index of the node's token.
    pub fn token_index(&self) -> (r: u32)
        ensures
            r == self.index(),
    {
        self.token_index
    }

    /// The shared token array.
    pub fn tokens(&self) -> (r: Arc<Vec<BdecodeToken>>)
        ensures
            views(r@) == self.toks(),
    {
        share(&self.tokens)
    }

    /// The indexes of the items: the elements of a list, the keys of a dictionary.
    pub fn item_indexes(&self) -> (r: Arc<Vec<u32>>)
        ensures
            as_ints(r@) == items(self.toks(), self.index()),
    {
        proof {
            use_type_invariant(self);
        }
        share(&self.item_indexes)
    }

    /// The kind of the node's token; `Undefined` for an index past the tokens.
    pub fn token_type(&self) -> (r: BdecodeTokenType)
        ensures
            r == self.kind(),
    {
        proof {
            use_type_invariant(self);
        }
        if (self.token_index as usize) < self.tokens.len() {
            self.tokens[self.token_index as usize].node_type()
        } else {
            BdecodeTokenType::Undefined
        }
    }

    /// The value of an integer node, or `Overflow` when it does not fit an `i64`.
    pub fn int_value(&self) -> (r: Result<i64, BdecodeError>)
        requires
            self.kind() == BdecodeTokenType::Int,
        ensures
            match int_value(self.buf(), self.toks(), self.index()) {
                Ok(v) => r is Ok && r->Ok_0 == v,
                Err(e) => r is Err && r->Err_0@ == e,
            },
    {
        proof {
            use_type_invariant(self);
        }
        int_value_at(self.buffer.as_slice(), self.tokens.as_slice(), self.token_index as usize)
    }

    /// The bytes of a string node, borrowed from the buffer.
    pub fn string_value(&self) -> (r: &[u8])
        requires
            self.kind() == BdecodeTokenType::Str,
        ensures
            r@ == str_bytes(self.buf(), self.toks(), self.index()),
    {
        proof {
            use_type_invariant(self);
        }
        str_value(self.buffer.as_slice(), self.tokens.as_slice(), self.token_index as usize)
    }

    /// The number of elements of a list, or of key-value pairs of a dictionary.
    pub fn len(&self) -> (r: usize)
        requires
            self.kind() == BdecodeTokenType::List || self.kind() == BdecodeTokenType::Dict,
        ensures
            r == item_count(self.toks(), self.index()),
    {
        proof {
            use_type_invariant(self);
        }
        self.len
    }

    /// Element `index` of a list.
    pub fn list_at(&self, index: usize) -> (r: BdecodeNode)
        requires
            self.kind() == BdecodeTokenType::List,
            index < item_count(self.toks(), self.index()),
        ensures
            r.index() == items(self.toks(), self.index())[index as int],
            r.toks() == self.toks(),
            r.buf() == self.buf(),
    {
        proof {
            use_type_invariant(self);
            lemma_items(self.buffer@, views(self.tokens@), self.token_index as int);
            assert(as_ints(self.item_indexes@)[index as int] == self.item_indexes@[index as int] as int);
        }
        let token_idx = self.item_indexes[index];
        node_at(&self.buffer, &self.tokens, token_idx)
    }

    /// Element `index` of a list, which is a string, as its bytes.
    pub fn list_string_value_at(&self, index: usize) -> (r: &[u8])
        requires
            self.kind() == BdecodeTokenType::List,
            index < item_count(self.toks(), self.index()),
            self.toks()[items(self.toks(), self.index())[index as int]].kind == BdecodeTokenType::Str,
        ensures
            r@ == str_bytes(self.buf(), self.toks(), items(self.toks(), self.index())[index as int]),
    {
        proof {
            use_type_invariant(self);
            lemma_items(self.buffer@, views(self.tokens@), self.token_index as int);
            assert(as_ints(self.item_indexes@)[index as int] == self.item_indexes@[index as int] as int);
        }
        let token_idx = self.item_indexes[index];
        str_value(self.buffer.as_slice(), self.tokens.as_slice(), token_idx as usize)
    }

    /// Element `index` of a list, which is an integer, as its value.
    pub fn list_int_value_at(&self, index: usize) -> (r: Result<i64, BdecodeError>)
        requires
            self.kind() == BdecodeTokenType::List,
            index < item_count(self.toks(), self.index()),
            self.toks()[items(self.toks(), self.index())[index as int]].kind == BdecodeTokenType::Int,
        ensures
            match int_value(self.buf(), self.toks(), items(self.toks(), self.index())[index as int]) {
                Ok(v) => r is Ok && r->Ok_0 == v,
                Err(e) => r is Err && r->Err_0@ == e,
            },
    {
        self.list_at(index).int_value()
    }

    /// Key and value of pair `index` of a dictionary.
    pub fn dict_at(&self, index: usize) -> (r: (BdecodeNode, BdecodeNode))
        requires
            self.kind() == BdecodeTokenType::Dict,
            index < item_count(self.toks(), self.index()),
        ensures
            r.0.index() == items(self.toks(), self.index())[index as int],
            r.1.index() == items(self.toks(), self.index())[index as int] + 1,
            r.0.kind() == BdecodeTokenType::Str,
            r.0.toks() == self.toks() && r.1.toks() == self.toks(),
            r.0.buf() == self.buf() && r.1.buf() == self.buf(),
    {
        proof {
            use_type_invariant(self);
            lemma_items(self.buffer@, views(self.tokens@), self.token_index as int);
            lemma_dict_keys(self.buffer@, views(self.tokens@), self.token_index as int);
            assert(as_ints(self.item_indexes@)[index as int] == self.item_indexes@[index as int] as int);
            lemma_str_token(self.buffer@, views(self.tokens@), self.item_indexes@[index as int] as int);
        }
        let key_token_idx = self.item_indexes[index];
        let key_node = node_at(&self.buffer, &self.tokens, key_token_idx);
        let val_token_idx = key_token_idx + self.tokens[key_token_idx as usize].next_item();
        let val_node = node_at(&self.buffer, &self.tokens, val_token_idx);
        (key_node, val_node)
    }

    /// The index of the value of the first key whose bytes are `key`.
    fn find_index(&self, key: &[u8]) -> (r: Option<u32>)
        requires
            self.kind() == BdecodeTokenType::Dict,
        ensures
            match find_value(self.buf(), self.toks(), self.index(), key@) {
                Some(v) => r == Some(v as u32) && 0 <= v < self.toks().len(),
                None => r is None,
            },
    {
        proof {
            use_type_invariant(self);
            let t = views(self.tokens@);
            let i = self.token_index as int;
            lemma_items(self.buffer@, t, i);
            lemma_dict_keys(self.buffer@, t, i);
            assert forall|j: int| 0 <= j < self.item_indexes@.len() implies (#[trigger] self.item_indexes@[j]) < self.tokens@.len() - 1
                && t[self.item_indexes@[j] as int].kind == BdecodeTokenType::Str by {
                assert(as_ints(self.item_indexes@)[j] == self.item_indexes@[j] as int);
            }
            crate::decode::lemma_find_value_bound(self.buffer@, t, i, key@);
        }
        find_in(self.buffer.as_slice(), self.tokens.as_slice(), &self.item_indexes, key)
    }

    /// The value of the first key of a dictionary whose bytes are `key`.
    pub fn dict_find(&self, key: &[u8]) -> (r: Option<BdecodeNode>)
        requires
            self.kind() == BdecodeTokenType::Dict,
        ensures
            match find_value(self.buf(), self.toks(), self.index(), key@) {
                Some(v) => r is Some && r->Some_0.index() == v && r->Some_0.toks() == self.toks()
                    && r->Some_0.buf() == self.buf(),
                None => r is None,
            },
    {
        proof {
            use_type_invariant(self);
        }
        match self.find_index(key) {
            Some(v) => Some(node_at(&self.buffer, &self.tokens, v)),
            None => None,
        }
    }

    /// The value of the first key whose bytes are `key`, when it is a string.
    pub fn dict_find_string_value(&self, key: &[u8]) -> (r: Option<&[u8]>)
        requires
            self.kind() == BdecodeTokenType::Dict,
        ensures
            match find_value(self.buf(), self.toks(), self.index(), key@) {
                Some(v) => if self.toks()[v].kind == BdecodeTokenType::Str {
                    r is Some && r->Some_0@ == str_bytes(self.buf(), self.toks(), v)
                } else {
                    r is None
                },
                None => r is None,
            },
    {
        proof {
            use_type_invariant(self);
        }
        match self.find_index(key) {
            Some(v) => {
                if self.tokens[v as usize].node_type() == BdecodeTokenType::Str {
                    Some(str_value(self.buffer.as_slice(), self.tokens.as_slice(), v as usize))
                } else {
                    None
                }
            },
            None => None,
        }
    }

    /// The value of the first key whose bytes are `key`, when it is an
    /// integer that fits an `i64`.
    pub fn dict_find_int_value(&self, key: &[u8]) -> (r: Option<i64>)
        requires
            self.kind() == BdecodeTokenType::Dict,
        ensures
            match find_value(self.buf(), self.toks(), self.index(), key@) {
                Some(v) => if self.toks()[v].kind == BdecodeTokenType::Int && int_value(self.buf(), self.toks(), v) is Ok {
                    r == Some(int_value(self.buf(), self.toks(), v)->Ok_0 as i64)
                } else {
                    r is None
                },
                None => r is None,
            },
    {
        proof {
            use_type_invariant(self);
        }
        match self.find_index(key) {
            Some(v) => {
                if self.tokens[v as usize].node_type() == BdecodeTokenType::Int {
                    match int_value_at(self.buffer.as_slice(), self.tokens.as_slice(), v as usize) {
                        Ok(x) => Some(x),
                        Err(_) => None,
                    }
                } else {
                    None
                }
            },
            None => None,
        }
    }

    /// The elements of the value of the first key whose bytes are `key`, when it is a list.
    pub fn dict_find_list(&self, key: &[u8]) -> (r: Option<Vec<BdecodeNode>>)
        requires
            self.kind() == BdecodeTokenType::Dict,
        ensures
            match find_value(self.buf(), self.toks(), self.index(), key@) {
                Some(v) => if self.toks()[v].kind == BdecodeTokenType::List {
                    r is Some && r->Some_0@.len() == item_count(self.toks(), v) && forall|j: int|
                        0 <= j < r->Some_0@.len() ==> (#[trigger] r->Some_0@[j]).index() == items(self.toks(), v)[j]
                            && r->Some_0@[j].toks() == self.toks() && r->Some_0@[j].buf() == self.buf()
                } else {
                    r is None
                },
                None => r is None,
            },
    {
        match self.dict_find(key) {
            Some(node) => {
                if node.token_type() == BdecodeTokenType::List {
                    let mut nodes: Vec<BdecodeNode> = Vec::new();
                    let n = node.len();
                    let mut i: usize = 0;
                    while i < n
                        invariant
                            node.kind() == BdecodeTokenType::List,
                            n == item_count(node.toks(), node.index()),
                            node.toks() == self.toks(),
                            node.buf() == self.buf(),
                            i <= n,
                            nodes@.len() == i,
                            forall|j: int| 0 <= j < i ==> (#[trigger] nodes@[j]).index() == items(node.toks(), node.index())[j]
                                && nodes@[j].toks() == self.toks() && nodes@[j].buf() == self.buf(),
                        decreases n - i,
                    {
                        nodes.push(node.list_at(i));
                        i += 1;
                    }
                    Some(nodes)
                } else {
                    None
                }
            },
            None => None,
        }
    }

    /// The pairs of the value of the first key whose bytes are `key`, when it
    /// is a dictionary: each key's bytes with its value.
    pub fn dict_find_dict(&self, key: &[u8]) -> (r: Option<Vec<(&[u8], BdecodeNode)>>)
        requires
            self.kind() == BdecodeTokenType::Dict,
        ensures
            match find_value(self.buf(), self.toks(), self.index(), key@) {
                Some(v) => if self.toks()[v].kind == BdecodeTokenType::Dict {
                    r is Some && r->Some_0@.len() == item_count(self.toks(), v) && forall|j: int|
                        0 <= j < r->Some_0@.len() ==> (#[trigger] r->Some_0@[j]).0@ == str_bytes(self.buf(), self.toks(), items(self.toks(), v)[j])
                            && r->Some_0@[j].1.index() == items(self.toks(), v)[j] + 1
                            && r->Some_0@[j].1.toks() == self.toks() && r->Some_0@[j].1.buf() == self.buf()
                } else {
                    r is None
                },
                None => r is None,
            },
    {
        proof {
            use_type_invariant(self);
        }
        match self.find_index(key) {
            Some(v) => {
                if self.tokens[v as usize].node_type() == BdecodeTokenType::Dict {
                    let ghost t = views(self.tokens@);
                    let (keys, n) = gen_item_indexes(self.tokens.as_slice(), v as usize);
                    proof {
                        lemma_items(self.buffer@, t, v as int);
                        lemma_dict_keys(self.buffer@, t, v as int);
                        assert(as_ints(keys@) =~= items(t, v as int));
                    }
                    let mut out: Vec<(&[u8], BdecodeNode)> = Vec::new();
                    let mut j: usize = 0;
                    while j < n
                        invariant
                            stream_ok(self.buffer@, t),
                            t == views(self.tokens@),
                            v < t.len(),
                            t[v as int].kind == BdecodeTokenType::Dict,
                            n == item_count(t, v as int),
                            n == keys@.len(),
                            as_ints(keys@) == items(t, v as int),
                            forall|k: int| 0 <= k < items(t, v as int).len() ==> v < #[trigger] items(t, v as int)[k] < t.len() - 1,
                            forall|k: int| 0 <= k < items(t, v as int).len() ==> t[#[trigger] items(t, v as int)[k]].kind == BdecodeTokenType::Str,
                            j <= n,
                            out@.len() == j,
                            forall|k: int| 0 <= k < j ==> (#[trigger] out@[k]).0@ == str_bytes(self.buffer@, t, items(t, v as int)[k])
                                && out@[k].1.index() == items(t, v as int)[k] + 1
                                && out@[k].1.toks() == t && out@[k].1.buf() == self.buffer@,
                        decreases n - j,
                    {
                        let k = keys[j];
                        proof {
                            assert(as_ints(keys@)[j as int] == k as int);
                            lemma_str_token(self.buffer@, t, k as int);
                        }
                        let bytes = str_value(self.buffer.as_slice(), self.tokens.as_slice(), k as usize);
                        let value = node_at(&self.buffer, &self.tokens, k + 1);
                        out.push((bytes, value));
                        j += 1;
                    }
                    Some(out)
                } else {
                    None
                }
            },
            None => None,
        }
    }
}

} // verus!
