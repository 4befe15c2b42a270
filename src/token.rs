use vstd::prelude::*;

verus! {

/// The kind of a token.
#[derive(Debug, Clone, Copy, PartialEq, Eq, Structural)]
pub enum BdecodeTokenType {
    /// No token (an uninitialised or default token); never part of a token stream.
    Undefined,
    /// The opening of a dictionary.
    Dict,
    /// The opening of a list.
    List,
    /// A byte string.
    Str,
    /// An integer.
    Int,
    /// The close of a container, or the terminator of the whole stream.
    End,
}

impl BdecodeTokenType {
    /// The three-bit code of a kind: `Undefined` is 0, then 1 to 5 in declaration order.
    pub open spec fn code(self) -> u8 {
        match self {
            BdecodeTokenType::Undefined => 0,
            BdecodeTokenType::Dict => 1,
            BdecodeTokenType::List => 2,
            BdecodeTokenType::Str => 3,
            BdecodeTokenType::Int => 4,
            BdecodeTokenType::End => 5,
        }
    }

    /// The kind of a code; every code other than 1 to 5 is `Undefined`.
    pub open spec fn of_code(bits: u8) -> Self {
        if bits == 1 {
            BdecodeTokenType::Dict
        } else if bits == 2 {
            BdecodeTokenType::List
        } else if bits == 3 {
            BdecodeTokenType::Str
        } else if bits == 4 {
            BdecodeTokenType::Int
        } else if bits == 5 {
            BdecodeTokenType::End
        } else {
            BdecodeTokenType::Undefined
        }
    }

    /// Decodes a kind from its code.
    pub fn from_bits(bits: u8) -> (r: Self)
        ensures
            r == Self::of_code(bits),
    {
        match bits {
            1 => BdecodeTokenType::Dict,
            2 => BdecodeTokenType::List,
            3 => BdecodeTokenType::Str,
            4 => BdecodeTokenType::Int,
            5 => BdecodeTokenType::End,
            _ => BdecodeTokenType::Undefined,
        }
    }

    /// Encodes a kind as its code.
    pub fn into_bits(self) -> (r: u8)
        ensures
            r == self.code(),
            Self::of_code(r) == self,
    {
        match self {
            BdecodeTokenType::Undefined => 0,
            BdecodeTokenType::Dict => 1,
            BdecodeTokenType::List => 2,
            BdecodeTokenType::Str => 3,
            BdecodeTokenType::Int => 4,
            BdecodeTokenType::End => 5,
        }
    }

    /// A dictionary or a list.
    pub open spec fn is_container(self) -> bool {
        self == BdecodeTokenType::Dict || self == BdecodeTokenType::List
    }
}

/// The fields of a token, as numbers.
pub struct TokenView {
    /// Where the token's source begins in the buffer.
    pub offset: nat,
    /// The kind of the token.
    pub kind: BdecodeTokenType,
    /// How many tokens to skip to reach the next sibling (or the close of the container).
    pub next_item: nat,
    /// For a string, the number of digits of its length prefix; zero otherwise.
    pub header_size: nat,
}

/// Offset, header size and skip distance fit the widths of the packed layout.
pub open spec fn fits(offset: nat, next_item: nat, header_size: nat) -> bool {
    offset < 0x2000_0000 && next_item < 0x2000_0000 && header_size < 8
}

/// A token packed in one 64-bit word: the offset in bits 0 to 28, the kind in
/// bits 29 to 31, the skip distance in bits 32 to 60, the header size in bits
/// 61 to 63.
#[derive(Debug, Clone, Copy, PartialEq, Eq, Structural)]
pub struct BdecodeToken {
    bits: u64,
}

impl View for BdecodeToken {
    type V = TokenView;

    closed spec fn view(&self) -> TokenView {
        TokenView {
            offset: (self.bits & 0x1fff_ffffu64) as nat,
            kind: BdecodeTokenType::of_code(((self.bits >> 29u64) & 7u64) as u8),
            next_item: ((self.bits >> 32u64) & 0x1fff_ffffu64) as nat,
            header_size: (self.bits >> 61u64) as nat,
        }
    }
}

proof fn lemma_pack(o: u64, k: u64, n: u64, h: u64)
    requires
        o < 0x2000_0000,
        k < 8,
        n < 0x2000_0000,
        h < 8,
    ensures
        (o | (k << 29u64) | (n << 32u64) | (h << 61u64)) & 0x1fff_ffffu64 == o,
        ((o | (k << 29u64) | (n << 32u64) | (h << 61u64)) >> 29u64) & 7u64 == k,
        ((o | (k << 29u64) | (n << 32u64) | (h << 61u64)) >> 32u64) & 0x1fff_ffffu64 == n,
        (o | (k << 29u64) | (n << 32u64) | (h << 61u64)) >> 61u64 == h,
{
    assert((o | (k << 29u64) | (n << 32u64) | (h << 61u64)) & 0x1fff_ffffu64 == o) by (bit_vector)
        requires
            o < 0x2000_0000,
            k < 8,
            n < 0x2000_0000,
            h < 8,
    ;
    assert(((o | (k << 29u64) | (n << 32u64) | (h << 61u64)) >> 29u64) & 7u64 == k) by (bit_vector)
        requires
            o < 0x2000_0000,
            k < 8,
            n < 0x2000_0000,
            h < 8,
    ;
    assert(((o | (k << 29u64) | (n << 32u64) | (h << 61u64)) >> 32u64) & 0x1fff_ffffu64 == n)
        by (bit_vector)
        requires
            o < 0x2000_0000,
            k < 8,
            n < 0x2000_0000,
            h < 8,
    ;
    assert((o | (k << 29u64) | (n << 32u64) | (h << 61u64)) >> 61u64 == h) by (bit_vector)
        requires
            o < 0x2000_0000,
            k < 8,
            n < 0x2000_0000,
            h < 8,
    ;
}

proof fn lemma_replace_next(b: u64, n: u64)
    requires
        n < 0x2000_0000,
    ensures
        ((b & 0xe000_0000_ffff_ffffu64) | (n << 32u64)) & 0x1fff_ffffu64 == b & 0x1fff_ffffu64,
        (((b & 0xe000_0000_ffff_ffffu64) | (n << 32u64)) >> 29u64) & 7u64 == (b >> 29u64) & 7u64,
        (((b & 0xe000_0000_ffff_ffffu64) | (n << 32u64)) >> 32u64) & 0x1fff_ffffu64 == n,
        ((b & 0xe000_0000_ffff_ffffu64) | (n << 32u64)) >> 61u64 == b >> 61u64,
{
    assert(((b & 0xe000_0000_ffff_ffffu64) | (n << 32u64)) & 0x1fff_ffffu64 == b & 0x1fff_ffffu64)
        by (bit_vector);
    assert((((b & 0xe000_0000_ffff_ffffu64) | (n << 32u64)) >> 29u64) & 7u64 == (b >> 29u64) & 7u64)
        by (bit_vector);
    assert((((b & 0xe000_0000_ffff_ffffu64) | (n << 32u64)) >> 32u64) & 0x1fff_ffffu64 == n)
        by (bit_vector)
        requires
            n < 0x2000_0000,
    ;
    assert(((b & 0xe000_0000_ffff_ffffu64) | (n << 32u64)) >> 61u64 == b >> 61u64)
        by (bit_vector)
        requires
            n < 0x2000_0000,
    ;
}

impl BdecodeToken {
    /// Packs the four fields.
    pub fn new_all(offset: u32, node_type: BdecodeTokenType, next_item: u32, head_size: u8) -> (r:
        Self)
        requires
            fits(offset as nat, next_item as nat, head_size as nat),
        ensures
            r@ == (TokenView {
                offset: offset as nat,
                kind: node_type,
                next_item: next_item as nat,
                header_size: head_size as nat,
            }),
    {
        let k = node_type.into_bits();
        proof {
            lemma_pack(offset as u64, k as u64, next_item as u64, head_size as u64);
        }
        let bits = (offset as u64) | ((k as u64) << 29u64) | ((next_item as u64) << 32u64) | ((
        head_size as u64) << 61u64);
        BdecodeToken { bits }
    }

    /// A dictionary opening at `offset`.
    pub fn new_dict(offset: u32, next_item: u32) -> (r: Self)
        requires
            fits(offset as nat, next_item as nat, 0),
        ensures
            r@ == (TokenView {
                offset: offset as nat,
                kind: BdecodeTokenType::Dict,
                next_item: next_item as nat,
                header_size: 0,
            }),
    {
        Self::new_all(offset, BdecodeTokenType::Dict, next_item, 0)
    }

    /// A list opening at `offset`.
    pub fn new_list(offset: u32, next_item: u32) -> (r: Self)
        requires
            fits(offset as nat, next_item as nat, 0),
        ensures
            r@ == (TokenView {
                offset: offset as nat,
                kind: BdecodeTokenType::List,
                next_item: next_item as nat,
                header_size: 0,
            }),
    {
        Self::new_all(offset, BdecodeTokenType::List, next_item, 0)
    }

    /// An integer whose `'i'` is at `offset`.
    pub fn new_int(offset: u32) -> (r: Self)
        requires
            fits(offset as nat, 1, 0),
        ensures
            r@ == (TokenView {
                offset: offset as nat,
                kind: BdecodeTokenType::Int,
                next_item: 1,
                header_size: 0,
            }),
    {
        let next_item: u32 = 1;
        Self::new_all(offset, BdecodeTokenType::Int, next_item, 0)
    }

    /// An end marker at `offset`.
    pub fn new_end(offset: u32) -> (r: Self)
        requires
            fits(offset as nat, 1, 0),
        ensures
            r@ == (TokenView {
                offset: offset as nat,
                kind: BdecodeTokenType::End,
                next_item: 1,
                header_size: 0,
            }),
    {
        let next_item: u32 = 1;
        Self::new_all(offset, BdecodeTokenType::End, next_item, 0)
    }

    /// A string whose length prefix starts at `offset` and has `head_size` digits.
    pub fn new_str(offset: u32, head_size: u8) -> (r: Self)
        requires
            fits(offset as nat, 1, head_size as nat),
        ensures
            r@ == (TokenView {
                offset: offset as nat,
                kind: BdecodeTokenType::Str,
                next_item: 1,
                header_size: head_size as nat,
            }),
    {
        let next_item: u32 = 1;
        Self::new_all(offset, BdecodeTokenType::Str, next_item, head_size)
    }

    /// Where the token's source begins in the buffer.
    pub fn offset(&self) -> (r: u32)
        ensures
            r == self@.offset,
            r < 0x2000_0000,
    {
        let b = self.bits;
        assert(b & 0x1fff_ffffu64 < 0x2000_0000) by (bit_vector);
        (b & 0x1fff_ffffu64) as u32
    }

    /// The kind of the token.
    pub fn node_type(&self) -> (r: BdecodeTokenType)
        ensures
            r == self@.kind,
    {
        let b = self.bits;
        assert((b >> 29u64) & 7u64 < 8) by (bit_vector);
        BdecodeTokenType::from_bits(((b >> 29u64) & 7u64) as u8)
    }

    /// The skip distance to the next sibling.
    pub fn next_item(&self) -> (r: u32)
        ensures
            r == self@.next_item,
            r < 0x2000_0000,
    {
        let b = self.bits;
        assert((b >> 32u64) & 0x1fff_ffffu64 < 0x2000_0000) by (bit_vector);
        ((b >> 32u64) & 0x1fff_ffffu64) as u32
    }

    /// The number of digits of a string's length prefix.
    pub fn header_size(&self) -> (r: u8)
        ensures
            r == self@.header_size,
            r < 8,
    {
        let b = self.bits;
        assert(b >> 61u64 < 8) by (bit_vector);
        (b >> 61u64) as u8
    }

    /// Replaces the skip distance, keeping the other fields.
    pub fn set_next_item(&mut self, next_item: u32)
        requires
            next_item < 0x2000_0000,
        ensures
            final(self)@ == (TokenView { next_item: next_item as nat, ..old(self)@ }),
    {
        proof {
            lemma_replace_next(self.bits, next_item as u64);
        }
        self.bits = (self.bits & 0xe000_0000_ffff_ffffu64) | ((next_item as u64) << 32u64);
    }
}

} // verus!
