use vstd::prelude::*;

verus! {

#[derive(Debug, PartialEq, Eq, Structural)]
pub enum NodeType {
    NodeInternal,
    NodeLeaf,
}

impl NodeType {
    /// The byte that stands for a node type in a page header.
    pub open spec fn spec_byte(self) -> u8 {
        match self {
            NodeType::NodeInternal => 0,
            NodeType::NodeLeaf => 1,
        }
    }

    /// Reads a node type byte: 0 is an internal node, 1 a leaf.
    pub fn from_u8(value: &u8) -> (t: Self)
        requires
            *value <= 1,
        ensures
            t.spec_byte() == *value,
    {
        match *value {
            0 => NodeType::NodeInternal,
            _ => NodeType::NodeLeaf,
        }
    }

    /// Node types and their bytes match one to one: each type has the byte 0
    /// or 1, and no two types share one.
    pub proof fn lemma_byte_one_to_one(t: NodeType, u: NodeType)
        ensures
            t.spec_byte() <= 1,
            t.spec_byte() == u.spec_byte() ==> t == u,
    {
    }

    pub fn to_u8(&self) -> (b: u8)
        ensures
            b == self.spec_byte(),
    {
        match self {
            NodeType::NodeInternal => 0,
            NodeType::NodeLeaf => 1,
        }
    }
}

} // verus!
