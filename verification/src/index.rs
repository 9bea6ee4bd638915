use vstd::prelude::*;

verus! {

/// Stable, non-owning handle into the arena: a slot number plus the
/// generation the slot had when the node was inserted. A handle resolves
/// only while its generation matches the slot's current generation, so a
/// handle issued before a removal never aliases a later occupant of the
/// same slot.
#[derive(Clone, Copy, PartialEq, Eq, PartialOrd, Ord, Hash, Debug, Structural)]
pub struct NodeIndex {
    pub slot: usize,
    pub generation: u64,
}

impl NodeIndex {
    /// The reserved "no link" sentinel. Valid handles always carry a
    /// generation of at least 1, so the sentinel never equals one.
    pub open spec fn empty_spec() -> NodeIndex {
        NodeIndex { slot: 0, generation: 0 }
    }

    /// Returns the "no link" sentinel.
    #[verifier::when_used_as_spec(empty_spec)]
    pub fn empty() -> (r: NodeIndex)
        ensures
            r == NodeIndex::empty_spec(),
    {
        NodeIndex { slot: 0, generation: 0 }
    }

    pub open spec fn is_empty_spec(&self) -> bool {
        *self == NodeIndex::empty_spec()
    }

    /// True exactly on the sentinel.
    #[verifier::when_used_as_spec(is_empty_spec)]
    pub fn is_empty(&self) -> (r: bool)
        ensures
            r == self.is_empty_spec(),
    {
        self.slot == 0 && self.generation == 0
    }
}

} // verus!
