//! In-order indices of the nodes of a perfect binary tree over all leaf positions.
//!
//! Leaf `p` has index `2p + 1`; the node at `level` whose subtree is the
//! `pos`-th of its size has index `(2 pos + 1) 2^level`, so every left subtree
//! holds smaller indices than its parent and every right subtree larger ones.
use vstd::arithmetic::power2::pow2;
use vstd::prelude::*;

verus! {

/// Index of a node in the in-order walk of the virtual tree over all leaves.
#[derive(Clone, Copy, Debug, PartialEq, Eq, Hash, Structural)]
pub struct InOrderIndex {
    pub idx: u64,
}

/// In-order index of the `pos`-th node at `level`.
pub open spec fn node_index(level: nat, pos: nat) -> nat {
    (2 * pos + 1) * pow2(level)
}

/// Position of the sibling of the `pos`-th node of a level.
pub open spec fn sibling_pos(pos: nat) -> nat {
    if pos % 2 == 0 {
        pos + 1
    } else {
        (pos - 1) as nat
    }
}

/// In-order index of the sibling met at `level` on the way from leaf `leaf` to the root.
pub open spec fn path_sibling_index(leaf: nat, level: nat) -> nat {
    node_index(level, sibling_pos(leaf / pow2(level)))
}

impl InOrderIndex {
    /// The index of leaf position `leaf`.
    pub fn from_leaf_pos(leaf: u64) -> (r: InOrderIndex)
        requires
            leaf < 0x8000_0000_0000_0000,
        ensures
            r.idx == 2 * leaf + 1,
    {
        InOrderIndex { idx: 2 * leaf + 1 }
    }

    /// The index as an integer.
    pub fn inner(&self) -> (r: u64)
        ensures
            r == self.idx,
    {
        self.idx
    }
}

} // verus!
