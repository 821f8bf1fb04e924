//! Undirected edges and tours.

use crate::distance::Distance;
use crate::node::Node;
use vstd::prelude::*;
use vstd::std_specs::cmp::PartialEqSpecImpl;

verus! {

/// An undirected edge between two nodes. `{a, b}` and `{b, a}` are the same
/// edge.
#[derive(Debug, Clone, Copy)]
pub struct UnEdge {
    pub from: Node,
    pub to: Node,
}

impl UnEdge {
    /// The smaller endpoint.
    pub open spec fn low(self) -> int {
        if self.from.0 <= self.to.0 {
            self.from.0 as int
        } else {
            self.to.0 as int
        }
    }

    /// The larger endpoint.
    pub open spec fn high(self) -> int {
        if self.from.0 <= self.to.0 {
            self.to.0 as int
        } else {
            self.from.0 as int
        }
    }

    /// Whether `self` and `other` join the same two nodes.
    pub open spec fn same_edge(self, other: UnEdge) -> bool {
        self.low() == other.low() && self.high() == other.high()
    }

    /// Whether `node` is one of the two endpoints.
    pub open spec fn touches(self, node: int) -> bool {
        self.from.0 == node || self.to.0 == node
    }

    /// The edge between `from` and `to`.
    pub fn new(from: Node, to: Node) -> (res: UnEdge)
        ensures
            res.from == from,
            res.to == to,
    {
        UnEdge { from, to }
    }

    /// Whether `self` comes before `other` when edges are ordered by their
    /// smaller endpoint first and their larger endpoint second.
    pub fn precedes(&self, other: &UnEdge) -> (res: bool)
        ensures
            res == (self.low() < other.low() || (self.low() == other.low() && self.high()
                < other.high())),
    {
        let (min_self, max_self) = if self.from.0 <= self.to.0 {
            (self.from.0, self.to.0)
        } else {
            (self.to.0, self.from.0)
        };
        let (min_other, max_other) = if other.from.0 <= other.to.0 {
            (other.from.0, other.to.0)
        } else {
            (other.to.0, other.from.0)
        };
        min_self < min_other || (min_self == min_other && max_self < max_other)
    }
}

impl PartialEq for UnEdge {
    fn eq(&self, other: &UnEdge) -> (res: bool) {
        (self.from.0 == other.from.0 && self.to.0 == other.to.0) || (self.from.0 == other.to.0
            && self.to.0 == other.from.0)
    }
}

impl PartialEqSpecImpl for UnEdge {
    open spec fn obeys_eq_spec() -> bool {
        true
    }

    open spec fn eq_spec(&self, other: &UnEdge) -> bool {
        self.same_edge(*other)
    }
}

impl Eq for UnEdge {

}

/// Joining the same two nodes does not depend on the orientation of either
/// edge.
pub proof fn lemma_same_edge_is_unordered(a: UnEdge, b: UnEdge)
    ensures
        a.same_edge(b) == ((a.from == b.from && a.to == b.to) || (a.from == b.to && a.to
            == b.from)),
        a.same_edge(b) == b.same_edge(a),
        a.same_edge(UnEdge { from: a.to, to: a.from }),
{
}

/// An undirected edge with its cost, for use where the cheapest edge is to
/// be found first.
#[derive(Debug)]
pub struct InvWeightUnEdge {
    pub cost: Distance,
    pub from: Node,
    pub to: Node,
}

impl InvWeightUnEdge {
    /// The edge between `from` and `to` at cost `cost`.
    pub fn new(cost: Distance, from: Node, to: Node) -> (res: InvWeightUnEdge)
        ensures
            res.cost == cost,
            res.from == from,
            res.to == to,
    {
        InvWeightUnEdge { cost, from, to }
    }

    /// The edge without its cost.
    pub fn to_edge(&self) -> (res: UnEdge)
        ensures
            res.from == self.from,
            res.to == self.to,
    {
        UnEdge { from: self.from, to: self.to }
    }

    /// Whether `self` ranks above `other`: the cheaper edge ranks higher.
    pub fn outranks(&self, other: &InvWeightUnEdge) -> (res: bool)
        ensures
            res == (self.cost.0 < other.cost.0),
    {
        self.cost.0 < other.cost.0
    }
}

/// How often `edge` occurs in `edges`, in either orientation.
pub open spec fn occurrences(edges: Seq<UnEdge>, edge: UnEdge) -> nat
    decreases edges.len(),
{
    if edges.len() == 0 {
        0
    } else {
        occurrences(edges.drop_last(), edge) + if edges.last().same_edge(edge) {
            1nat
        } else {
            0nat
        }
    }
}

/// The degree of `node` in the graph with the edges `edges`: the number of
/// edge ends at `node`.
pub open spec fn degree(edges: Seq<UnEdge>, node: int) -> nat
    decreases edges.len(),
{
    if edges.len() == 0 {
        0
    } else {
        degree(edges.drop_last(), node) + if edges.last().from.0 == node {
            1nat
        } else {
            0nat
        } + if edges.last().to.0 == node {
            1nat
        } else {
            0nat
        }
    }
}

/// Counts how often `edge` occurs in `edges`, in either orientation.
pub fn count_occurrences(edges: &Vec<UnEdge>, edge: &UnEdge) -> (res: usize)
    ensures
        res == occurrences(edges@, *edge),
{
    let mut count: usize = 0;
    let mut i: usize = 0;
    while i < edges.len()
        invariant
            i <= edges.len(),
            count == occurrences(edges@.take(i as int), *edge),
            count <= i,
        decreases edges.len() - i,
    {
        proof {
            assert(edges@.take(i + 1).drop_last() =~= edges@.take(i as int));
        }
        if edges[i] == *edge {
            count = count + 1;
        }
        i = i + 1;
    }
    proof {
        assert(edges@.take(i as int) =~= edges@);
    }
    count
}

/// A closed tour given by its edges, with its total cost.
#[derive(Debug, Clone)]
pub struct UnTour {
    pub edges: Vec<UnEdge>,
    pub cost: Distance,
}

impl UnTour {
    /// Whether the two tours cost the same and use every edge equally
    /// often, whatever the order and orientation of their edges.
    pub open spec fn same_tour(&self, other: &UnTour) -> bool {
        &&& self.cost == other.cost
        &&& self.edges@.len() == other.edges@.len()
        &&& forall|i: int|
            0 <= i < self.edges@.len() ==> occurrences(self.edges@, #[trigger] self.edges@[i])
                == occurrences(other.edges@, self.edges@[i])
    }

    /// Compares cost and edges; the order and orientation of the edges do
    /// not matter.
    pub fn has_same_edges(&self, other: &UnTour) -> (res: bool)
        ensures
            res == self.same_tour(other),
    {
        if self.cost.0 != other.cost.0 || self.edges.len() != other.edges.len() {
            return false;
        }
        let mut i: usize = 0;
        while i < self.edges.len()
            invariant
                i <= self.edges.len(),
                forall|k: int|
                    0 <= k < i ==> occurrences(self.edges@, #[trigger] self.edges@[k])
                        == occurrences(other.edges@, self.edges@[k]),
            decreases self.edges.len() - i,
        {
            let edge = self.edges[i];
            if count_occurrences(&self.edges, &edge) != count_occurrences(&other.edges, &edge) {
                return false;
            }
            i = i + 1;
        }
        true
    }
}

impl PartialEq for UnTour {
    fn eq(&self, other: &UnTour) -> (res: bool) {
        self.has_same_edges(other)
    }
}

impl PartialEqSpecImpl for UnTour {
    open spec fn obeys_eq_spec() -> bool {
        true
    }

    open spec fn eq_spec(&self, other: &UnTour) -> bool {
        self.same_tour(other)
    }
}

} // verus!
