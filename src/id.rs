use vstd::prelude::*;

verus! {

/// Identifier of a node within one syntax tree: its position in the tree's
/// node table.
#[derive(Clone, Copy, Debug, Hash, PartialEq, Eq, PartialOrd, Ord, Structural)]
pub struct NodeId {
    pub id: usize,
}

impl NodeId {
    pub fn new(id: usize) -> (r: NodeId)
        ensures
            r.id == id,
    {
        NodeId { id }
    }

    pub fn get(self) -> (r: usize)
        ensures
            r == self.id,
    {
        self.id
    }
}

} // verus!
