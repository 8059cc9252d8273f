//! Graph nodes: the orbit statistics carried by every node, and the node
//! record with its edge indices into the owning arena.

use vstd::prelude::*;

verus! {

/// The orbit statistics of one node: its integer value, its distance to the
/// root along `down` edges, and the largest value on its descending path.
#[derive(Clone, Copy, PartialEq, Eq, Structural, Debug)]
pub struct NodeData {
    pub value: u64,
    /// Edge count from this node down to the root; the root has depth 0.
    pub depth: usize,
    /// The maximum value among this node and all nodes on its path down to
    /// the root, inclusive.
    pub highest_point: u64,
}

impl core::convert::From<(usize, u64, u64)> for NodeData {
    fn from(t: (usize, u64, u64)) -> Self {
        NodeData { value: t.1, depth: t.0, highest_point: t.2 }
    }
}

impl vstd::std_specs::convert::FromSpecImpl<(usize, u64, u64)> for NodeData {
    open spec fn obeys_from_spec() -> bool {
        true
    }

    open spec fn from_spec(t: (usize, u64, u64)) -> NodeData {
        NodeData { value: t.1, depth: t.0, highest_point: t.2 }
    }
}

/// One graph node. Nodes live in an arena owned by the graph and refer to
/// their neighbours by arena index: at most one `down` edge toward the root
/// and at most two `up` edges away from it.
#[derive(Clone, Copy, PartialEq, Eq, Structural, Debug)]
pub struct CollatzNode {
    pub data: NodeData,
    pub down: Option<usize>,
    pub up1: Option<usize>,
    pub up2: Option<usize>,
}

impl CollatzNode {
    /// A fresh, unlinked node: depth zero and a highest point equal to the
    /// value itself, corrected when the node is linked into the graph.
    pub fn new(value: u64) -> (r: Self)
        ensures
            r == (CollatzNode {
                data: NodeData { value, depth: 0, highest_point: value },
                down: None,
                up1: None,
                up2: None,
            }),
    {
        CollatzNode {
            data: NodeData { value, depth: 0, highest_point: value },
            down: None,
            up1: None,
            up2: None,
        }
    }
}

} // verus!
