//! Node indices.

use vstd::prelude::*;
use vstd::std_specs::ops::AddSpecImpl;
use vstd::std_specs::ops::SubSpecImpl;

verus! {

/// A node of the graph: an index in `0..n`.
#[derive(Debug, Clone, Copy, PartialEq, Eq, Structural, Hash, PartialOrd, Ord)]
pub struct Node(pub usize);

impl core::ops::Add<usize> for Node {
    type Output = Node;

    fn add(self, rhs: usize) -> (res: Node) {
        Node(self.0 + rhs)
    }
}

impl AddSpecImpl<usize> for Node {
    open spec fn obeys_add_spec() -> bool {
        true
    }

    open spec fn add_req(self, rhs: usize) -> bool {
        self.0 + rhs <= usize::MAX
    }

    open spec fn add_spec(self, rhs: usize) -> Node {
        Node((self.0 + rhs) as usize)
    }
}

impl core::ops::Sub<usize> for Node {
    type Output = Node;

    fn sub(self, rhs: usize) -> (res: Node) {
        Node(self.0 - rhs)
    }
}

impl SubSpecImpl<usize> for Node {
    open spec fn obeys_sub_spec() -> bool {
        true
    }

    open spec fn sub_req(self, rhs: usize) -> bool {
        rhs <= self.0
    }

    open spec fn sub_spec(self, rhs: usize) -> Node {
        Node((self.0 - rhs) as usize)
    }
}

} // verus!
