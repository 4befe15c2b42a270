use vstd::prelude::*;

verus! {

/// The kind of a node.
#[derive(Debug, Clone, Copy, PartialEq, Eq, Structural)]
pub enum NodeType {
    /// No node (an uninitialised or default node).
    Undefined,
    /// A dictionary.
    Dict,
    /// A list.
    List,
    /// A byte string.
    Str,
    /// An integer.
    Int,
    /// An end marker.
    End,
}

impl NodeType {
    /// The three-bit code of a kind: `Undefined` is 0, then 1 to 5 in declaration order.
    pub open spec fn code(self) -> u8 {
        match self {
            NodeType::Undefined => 0,
            NodeType::Dict => 1,
            NodeType::List => 2,
            NodeType::Str => 3,
            NodeType::Int => 4,
            NodeType::End => 5,
        }
    }

    /// Decodes a kind; every code other than 1 to 5 is `Undefined`.
    pub fn from_bits(bits: u8) -> (r: Self)
        ensures
            1 <= bits <= 5 ==> r.code() == bits,
            !(1 <= bits <= 5) ==> r == NodeType::Undefined,
    {
        match bits {
            1 => NodeType::Dict,
            2 => NodeType::List,
            3 => NodeType::Str,
            4 => NodeType::Int,
            5 => NodeType::End,
            _ => NodeType::Undefined,
        }
    }

    /// Encodes a kind as its code.
    pub fn into_bits(self) -> (r: u8)
        ensures
            r == self.code(),
    {
        match self {
            NodeType::Undefined => 0,
            NodeType::Dict => 1,
            NodeType::List => 2,
            NodeType::Str => 3,
            NodeType::Int => 4,
            NodeType::End => 5,
        }
    }
}

} // verus!
