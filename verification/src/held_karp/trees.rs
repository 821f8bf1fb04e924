//! Minimum spanning trees and minimum 1-trees under edge states.
//!
//! The spanning tree is grown as Prim's algorithm grows it. An `Excluded`
//! edge is never used; a `Fixed` edge is forced into the tree as soon as one
//! of its endpoints is in it; among the others the cheapest by reduced
//! distance wins. The reduced distance of an edge is its scaled distance less
//! the penalties of its two endpoints.

use crate::distance::ScaledDistance;
use crate::edge::UnEdge;
use crate::held_karp::edge_state::EdgeState;
use crate::held_karp::feasibility::lemma_no_kernel_tree_no_spanning_tree;
use crate::held_karp::one_tree_laws::admits_no_tour;
use crate::held_karp::one_tree_laws::is_admitted_one_tree;
use crate::held_karp::one_tree_laws::is_cheaper_than_tours;
use crate::held_karp::one_tree_laws::is_symmetric_matrix;
use crate::held_karp::one_tree_laws::lemma_no_one_tree_no_tour;
use crate::held_karp::one_tree_laws::lemma_one_tree_is_admitted;
use crate::held_karp::one_tree_laws::lemma_one_tree_is_cheaper_than_tours;
use crate::held_karp::optimality::admits_no_spanning_tree;
use crate::held_karp::optimality::is_cheapest_spanning_tree;
use crate::held_karp::optimality::is_spanning_tree;
use crate::held_karp::optimality::is_symmetric;
use crate::held_karp::optimality::lemma_kernel_tree_is_a_spanning_tree;
use crate::held_karp::optimality::lemma_kernel_tree_is_cheapest;
use crate::matrix::EDMViewZeroRemoved;
use crate::matrix::EdgeDataMatrix;
use crate::node::Node;
use vstd::prelude::*;

verus! {

/// The cost of a node that no usable edge has reached yet.
pub const UNREACHED: i64 = 0x7FFF_FFFF_FFFF_FFFF;

/// The cost of a node that a `Fixed` edge forces into the tree.
pub const FORCED: i64 = -0x8000_0000_0000_0000;

/// What a spanning tree is computed from: the rows of the nodes
/// `first..dimension` of a distance matrix and of an edge-state matrix, and
/// one penalty per node. The tree spans the nodes `first..dimension`.
pub struct TreeProblem {
    pub dimension: int,
    pub first: int,
    pub distances: Seq<ScaledDistance>,
    pub states: Seq<EdgeState>,
    pub penalties: Seq<ScaledDistance>,
}

impl TreeProblem {
    /// The rows and penalties have the lengths that go with `dimension` and
    /// `first`, and there is a node to start from.
    pub open spec fn wf(self) -> bool {
        &&& 0 <= self.first < self.dimension <= usize::MAX
        &&& self.distances.len() == (self.dimension - self.first) * self.dimension
        &&& self.states.len() == (self.dimension - self.first) * self.dimension
        &&& self.penalties.len() == self.dimension
    }

    /// Where the cell `(from, to)` lies in the rows.
    pub open spec fn cell(self, from: int, to: int) -> int {
        (from - self.first) * self.dimension + to
    }

    /// The state of the edge from `from` to `to`.
    pub open spec fn state(self, from: int, to: int) -> EdgeState {
        self.states[self.cell(from, to)]
    }

    /// The reduced distance from `from` to `to`.
    pub open spec fn reduced(self, from: int, to: int) -> int {
        self.distances[self.cell(from, to)].0 - self.penalties[from].0 - self.penalties[to].0
    }
}

/// The bookkeeping of Prim's algorithm between two rounds.
pub struct PrimState {
    /// For each node, whether it is in the tree.
    pub in_tree: Seq<bool>,
    /// For each node outside the tree, the cost of the best edge into it.
    pub best_cost: Seq<int>,
    /// For each node outside the tree, the tree end of that best edge.
    pub best_pred: Seq<int>,
    /// The node that joined the tree last.
    pub curr: int,
    /// The edges of the tree, in the order in which they were added.
    pub tree: Seq<UnEdge>,
}

/// The state before the first round: only `first` is in the tree.
pub open spec fn prim_start(p: TreeProblem) -> PrimState {
    PrimState {
        in_tree: Seq::new(p.dimension as nat, |v: int| v == p.first),
        best_cost: Seq::new(p.dimension as nat, |v: int| UNREACHED as int),
        best_pred: Seq::new(p.dimension as nat, |v: int| p.dimension),
        curr: p.first,
        tree: Seq::empty(),
    }
}

/// Whether `v` is still to be added to the tree.
pub open spec fn remaining(p: TreeProblem, st: PrimState, v: int) -> bool {
    p.first <= v < p.dimension && !st.in_tree[v]
}

/// Whether the edge from the current node would force `v` a second time:
/// `v` is already forced, and that edge is `Fixed` too. The `Fixed` edges
/// then close a cycle.
pub open spec fn forced_twice(p: TreeProblem, st: PrimState, v: int) -> bool {
    remaining(p, st, v) && p.state(st.curr, v) == EdgeState::Fixed && st.best_cost[v]
        == FORCED as int
}

/// Whether looking at the edge from the current node to `v` changes what is
/// known of `v`.
pub open spec fn improves(p: TreeProblem, st: PrimState, v: int) -> bool {
    remaining(p, st, v) && match p.state(st.curr, v) {
        EdgeState::Excluded => false,
        EdgeState::Available => p.reduced(st.curr, v) < st.best_cost[v],
        EdgeState::Fixed => true,
    }
}

/// The cost of the best edge into `v` once the edge from the current node
/// has been looked at.
pub open spec fn relaxed_cost(p: TreeProblem, st: PrimState, v: int) -> int {
    if improves(p, st, v) {
        if p.state(st.curr, v) == EdgeState::Fixed {
            FORCED as int
        } else {
            p.reduced(st.curr, v)
        }
    } else {
        st.best_cost[v]
    }
}

/// The tree end of the best edge into `v` once the edge from the current
/// node has been looked at.
pub open spec fn relaxed_pred(p: TreeProblem, st: PrimState, v: int) -> int {
    if improves(p, st, v) {
        st.curr
    } else {
        st.best_pred[v]
    }
}

/// The first node below `k`, outside the tree, whose cost is the least of
/// all such nodes and below `UNREACHED`; `None` if there is none.
pub open spec fn cheapest_below(costs: Seq<int>, in_tree: Seq<bool>, first: int, k: int) -> Option<
    int,
>
    decreases k - first,
{
    if k <= first {
        None
    } else {
        let before = cheapest_below(costs, in_tree, first, k - 1);
        let bound = match before {
            Some(u) => costs[u],
            None => UNREACHED as int,
        };
        if !in_tree[k - 1] && costs[k - 1] < bound {
            Some(k - 1)
        } else {
            before
        }
    }
}

/// One round of Prim's algorithm: look at every edge from the current node
/// to a remaining node, then add the cheapest remaining node to the tree.
/// `None` if a node is forced twice or no remaining node can be reached.
pub open spec fn prim_round(p: TreeProblem, st: PrimState) -> Option<PrimState> {
    let costs = Seq::new(p.dimension as nat, |v: int| relaxed_cost(p, st, v));
    let preds = Seq::new(p.dimension as nat, |v: int| relaxed_pred(p, st, v));
    if exists|v: int| forced_twice(p, st, v) {
        None
    } else {
        match cheapest_below(costs, st.in_tree, p.first, p.dimension) {
            None => None,
            Some(next) => Some(
                PrimState {
                    in_tree: st.in_tree.update(next, true),
                    best_cost: costs,
                    best_pred: preds,
                    curr: next,
                    tree: st.tree.push(
                        UnEdge { from: Node(preds[next] as usize), to: Node(next as usize) },
                    ),
                },
            ),
        }
    }
}

/// The state after `rounds` rounds, or `None` if one of them failed.
pub open spec fn prim_rounds(p: TreeProblem, rounds: nat) -> Option<PrimState>
    decreases rounds,
{
    if rounds == 0 {
        Some(prim_start(p))
    } else {
        match prim_rounds(p, (rounds - 1) as nat) {
            None => None,
            Some(st) => prim_round(p, st),
        }
    }
}

/// The spanning tree of the nodes `first..dimension` that Prim's algorithm
/// builds from `first`, or `None` where the edge states admit none.
pub open spec fn spanning_tree(p: TreeProblem) -> Option<Seq<UnEdge>> {
    match prim_rounds(p, (p.dimension - p.first - 1) as nat) {
        None => None,
        Some(st) => Some(st.tree),
    }
}

/// Once a round has failed, all later rounds have failed.
pub proof fn lemma_failure_is_final(p: TreeProblem, failed: nat, later: nat)
    requires
        failed <= later,
        prim_rounds(p, failed) is None,
    ensures
        prim_rounds(p, later) is None,
    decreases later,
{
    if failed < later {
        lemma_failure_is_final(p, failed, (later - 1) as nat);
    }
}

/// A cell of the rows `first..dimension` lies inside them.
pub proof fn lemma_row_cell_in_range(from: int, to: int, first: int, dimension: int)
    requires
        0 <= first <= from < dimension,
        0 <= to < dimension,
    ensures
        0 <= (from - first) * dimension <= (from - first) * dimension + to < (dimension - first)
            * dimension,
{
    assert((from - first) * dimension + dimension <= (dimension - first) * dimension)
        by (nonlinear_arith)
        requires
            from < dimension,
            0 <= dimension,
    ;
    assert(0 <= (from - first) * dimension) by (nonlinear_arith)
        requires
            first <= from,
            0 <= dimension,
    ;
}

/// Grows the spanning tree of the nodes `first..dimension` from the rows of
/// those nodes.
fn grow_spanning_tree(
    distances: &[ScaledDistance],
    states: &[EdgeState],
    dimension: usize,
    first: usize,
    penalties: &[ScaledDistance],
) -> (res: Option<Vec<UnEdge>>)
    requires
        (TreeProblem {
            dimension: dimension as int,
            first: first as int,
            distances: distances@,
            states: states@,
            penalties: penalties@,
        }).wf(),
    ensures
        res is Some == spanning_tree(
            TreeProblem {
                dimension: dimension as int,
                first: first as int,
                distances: distances@,
                states: states@,
                penalties: penalties@,
            },
        ) is Some,
        res is Some ==> res->0@ == spanning_tree(
            TreeProblem {
                dimension: dimension as int,
                first: first as int,
                distances: distances@,
                states: states@,
                penalties: penalties@,
            },
        )->0,
        res is Some ==> res->0@.len() == dimension - first - 1,
        res is Some ==> forall|i: int|
            0 <= i < res->0@.len() ==> first <= (#[trigger] res->0@[i]).from.0 < dimension && first
                < res->0@[i].to.0 < dimension && res->0@[i].from.0 != res->0@[i].to.0,
{
    let ghost p = TreeProblem {
        dimension: dimension as int,
        first: first as int,
        distances: distances@,
        states: states@,
        penalties: penalties@,
    };
    let mut in_tree: Vec<bool> = Vec::with_capacity(dimension);
    let mut best_cost: Vec<i64> = Vec::with_capacity(dimension);
    let mut best_pred: Vec<usize> = Vec::with_capacity(dimension);
    let mut fill: usize = 0;
    while fill < dimension
        invariant
            fill <= dimension,
            in_tree@.len() == fill,
            best_cost@.len() == fill,
            best_pred@.len() == fill,
            forall|v: int| 0 <= v < fill ==> in_tree@[v] == (v == first),
            forall|v: int| 0 <= v < fill ==> best_cost@[v] == UNREACHED,
            forall|v: int| 0 <= v < fill ==> best_pred@[v] == dimension,
        decreases dimension - fill,
    {
        in_tree.push(fill == first);
        best_cost.push(UNREACHED);
        best_pred.push(dimension);
        fill = fill + 1;
    }
    let mut curr: usize = first;
    let mut tree: Vec<UnEdge> = Vec::with_capacity(dimension - first - 1);
    let ghost mut st = prim_start(p);
    proof {
        assert(st.in_tree =~= in_tree@);
    }
    let rounds: usize = dimension - first - 1;
    let mut round: usize = 0;
    while round < rounds
        invariant
            p.wf(),
            p.dimension == dimension,
            p.first == first,
            p.distances == distances@,
            p.states == states@,
            p.penalties == penalties@,
            rounds == dimension - first - 1,
            round <= rounds,
            prim_rounds(p, round as nat) == Some(st),
            in_tree@ == st.in_tree,
            best_cost@.len() == dimension,
            best_pred@.len() == dimension,
            st.best_cost.len() == dimension,
            st.best_pred.len() == dimension,
            st.in_tree.len() == dimension,
            forall|v: int| 0 <= v < dimension ==> #[trigger] best_cost@[v] == st.best_cost[v],
            forall|v: int| 0 <= v < dimension ==> #[trigger] best_pred@[v] == st.best_pred[v],
            curr == st.curr,
            first <= curr < dimension,
            in_tree@[curr as int],
            in_tree@[first as int],
            tree@ == st.tree,
            tree@.len() == round,
            forall|v: int|
                first <= v < dimension && !in_tree@[v] && #[trigger] best_cost@[v] < UNREACHED
                    ==> first <= best_pred@[v] < dimension && in_tree@[best_pred@[v] as int],
            forall|i: int|
                0 <= i < tree@.len() ==> first <= (#[trigger] tree@[i]).from.0 < dimension && first
                    < tree@[i].to.0 < dimension && tree@[i].from.0 != tree@[i].to.0,
        decreases rounds - round,
    {
        proof {
            lemma_row_cell_in_range(curr as int, 0, first as int, dimension as int);
            assert(distances.len() == distances@.len());
        }
        let row_start: usize = (curr - first) * dimension;
        let penalty_curr: i64 = penalties[curr].0 as i64;
        let mut cheapest: Option<usize> = None;
        let mut cheapest_cost: i64 = UNREACHED;
        let ghost costs = Seq::new(p.dimension as nat, |v: int| relaxed_cost(p, st, v));
        let ghost preds = Seq::new(p.dimension as nat, |v: int| relaxed_pred(p, st, v));
        let mut v: usize = first;
        while v < dimension
            invariant
                p.wf(),
                p.dimension == dimension,
                p.first == first,
                p.distances == distances@,
                p.states == states@,
                p.penalties == penalties@,
                first <= v <= dimension,
                first <= curr < dimension,
                rounds == dimension - first - 1,
                round < rounds,
                prim_rounds(p, round as nat) == Some(st),
                in_tree@[first as int],
                curr == st.curr,
                row_start == (curr - first) * dimension,
                penalty_curr == penalties@[curr as int].0,
                in_tree@ == st.in_tree,
                in_tree@[curr as int],
                st.in_tree.len() == dimension,
                st.best_cost.len() == dimension,
                st.best_pred.len() == dimension,
                best_cost@.len() == dimension,
                best_pred@.len() == dimension,
                costs == Seq::new(p.dimension as nat, |u: int| relaxed_cost(p, st, u)),
                preds == Seq::new(p.dimension as nat, |u: int| relaxed_pred(p, st, u)),
                forall|u: int| 0 <= u < v ==> #[trigger] best_cost@[u] == costs[u],
                forall|u: int| 0 <= u < v ==> #[trigger] best_pred@[u] == preds[u],
                forall|u: int| v <= u < dimension ==> #[trigger] best_cost@[u] == st.best_cost[u],
                forall|u: int| v <= u < dimension ==> #[trigger] best_pred@[u] == st.best_pred[u],
                forall|u: int| u < v ==> !forced_twice(p, st, u),
                cheapest matches Some(c) ==> first <= c < v && !in_tree@[c as int] && cheapest_cost
                    == costs[c as int] && cheapest_cost < UNREACHED,
                cheapest is None ==> cheapest_cost == UNREACHED,
                match cheapest {
                    Some(c) => cheapest_below(costs, st.in_tree, first as int, v as int) == Some(
                        c as int,
                    ),
                    None => cheapest_below(costs, st.in_tree, first as int, v as int) is None,
                },
                forall|u: int|
                    first <= u < dimension && !in_tree@[u] && #[trigger] best_cost@[u] < UNREACHED
                        ==> first <= best_pred@[u] < dimension && in_tree@[best_pred@[u] as int],
            decreases dimension - v,
        {
            proof {
                lemma_row_cell_in_range(curr as int, v as int, first as int, dimension as int);
                assert(states.len() == states@.len());
                assert(distances.len() == distances@.len());
            }
            if !in_tree[v] {
                match states[row_start + v] {
                    EdgeState::Excluded => {},
                    EdgeState::Available => {
                        let reduced: i64 = distances[row_start + v].0 as i64 - penalty_curr
                            - penalties[v].0 as i64;
                        if reduced < best_cost[v] {
                            best_cost[v] = reduced;
                            best_pred[v] = curr;
                        }
                    },
                    EdgeState::Fixed => {
                        if best_cost[v] == FORCED {
                            proof {
                                assert(forced_twice(p, st, v as int));
                                assert(prim_round(p, st) is None);
                                assert(prim_rounds(p, (round + 1) as nat) is None);
                                lemma_failure_is_final(p, (round + 1) as nat, rounds as nat);
                            }
                            return None;
                        }
                        best_cost[v] = FORCED;
                        best_pred[v] = curr;
                    },
                }
                if best_cost[v] < cheapest_cost {
                    cheapest_cost = best_cost[v];
                    cheapest = Some(v);
                }
            }
            v = v + 1;
        }
        match cheapest {
            None => {
                proof {
                    assert(prim_round(p, st) is None);
                    assert(prim_rounds(p, (round + 1) as nat) is None);
                    lemma_failure_is_final(p, (round + 1) as nat, rounds as nat);
                }
                return None;
            },
            Some(next) => {
                proof {
                    assert(!exists|u: int| forced_twice(p, st, u));
                    assert(best_cost@[next as int] == costs[next as int]);
                    assert(first <= best_pred@[next as int] < dimension);
                    assert(in_tree@[best_pred@[next as int] as int]);
                }
                let pred = best_pred[next];
                let ghost tree_before = tree@;
                tree.push(UnEdge::new(Node(pred), Node(next)));
                in_tree[next] = true;
                curr = next;
                proof {
                    let after = prim_round(p, st)->0;
                    assert(prim_round(p, st) is Some);
                    assert(after.tree =~= tree@);
                    assert(after.in_tree =~= in_tree@);
                    st = after;
                    assert(prim_rounds(p, (round + 1) as nat) == Some(st));
                    assert forall|i: int| 0 <= i < tree@.len() implies first <= (
                    #[trigger] tree@[i]).from.0 < dimension && first < tree@[i].to.0 < dimension
                        && tree@[i].from.0 != tree@[i].to.0 by {
                        if i < tree_before.len() {
                            assert(tree@[i] == tree_before[i]);
                        }
                    }
                }
            },
        }
        round = round + 1;
    }
    Some(tree)
}

/// The minimum spanning tree of the nodes `1..n` under the given edge
/// states and penalties, grown from node 1. `None` if the `Fixed` edges
/// close a cycle or the usable edges do not connect the nodes. Where states
/// and distances are the same in both directions, the tree is a cheapest
/// among the spanning trees that the states admit, and `None` says that
/// there is none.
pub fn min_spanning_tree(
    distances_scaled: EDMViewZeroRemoved<ScaledDistance>,
    edge_states: EDMViewZeroRemoved<EdgeState>,
    penalties: &[ScaledDistance],
) -> (res: Option<Vec<UnEdge>>)
    requires
        distances_scaled.wf(),
        edge_states.wf(),
        distances_scaled.dimension >= 2,
        edge_states.dimension == distances_scaled.dimension,
        penalties@.len() == distances_scaled.dimension,
    ensures
        res is Some == spanning_tree(
            TreeProblem {
                dimension: distances_scaled.dimension as int,
                first: 1,
                distances: distances_scaled.data@,
                states: edge_states.data@,
                penalties: penalties@,
            },
        ) is Some,
        res is Some ==> res->0@ == spanning_tree(
            TreeProblem {
                dimension: distances_scaled.dimension as int,
                first: 1,
                distances: distances_scaled.data@,
                states: edge_states.data@,
                penalties: penalties@,
            },
        )->0,
        res is Some ==> res->0@.len() == distances_scaled.dimension - 2,
        res is Some ==> forall|i: int|
            0 <= i < res->0@.len() ==> 1 <= (#[trigger] res->0@[i]).from.0
                < distances_scaled.dimension && 1 < res->0@[i].to.0 < distances_scaled.dimension
                && res->0@[i].from.0 != res->0@[i].to.0,
        is_symmetric(
            TreeProblem {
                dimension: distances_scaled.dimension as int,
                first: 1,
                distances: distances_scaled.data@,
                states: edge_states.data@,
                penalties: penalties@,
            },
        ) ==> match res {
            Some(tree) => is_spanning_tree(
                TreeProblem {
                    dimension: distances_scaled.dimension as int,
                    first: 1,
                    distances: distances_scaled.data@,
                    states: edge_states.data@,
                    penalties: penalties@,
                },
                tree@,
            ) && is_cheapest_spanning_tree(
                TreeProblem {
                    dimension: distances_scaled.dimension as int,
                    first: 1,
                    distances: distances_scaled.data@,
                    states: edge_states.data@,
                    penalties: penalties@,
                },
                tree@,
            ),
            None => admits_no_spanning_tree(
                TreeProblem {
                    dimension: distances_scaled.dimension as int,
                    first: 1,
                    distances: distances_scaled.data@,
                    states: edge_states.data@,
                    penalties: penalties@,
                },
            ),
        },
{
    let ghost p = TreeProblem {
        dimension: distances_scaled.dimension as int,
        first: 1,
        distances: distances_scaled.data@,
        states: edge_states.data@,
        penalties: penalties@,
    };
    let res = grow_spanning_tree(
        distances_scaled.data,
        edge_states.data,
        distances_scaled.dimension,
        1,
        penalties,
    );
    proof {
        if is_symmetric(p) {
            if res is Some {
                lemma_kernel_tree_is_a_spanning_tree(p);
                lemma_kernel_tree_is_cheapest(p);
            } else {
                lemma_no_kernel_tree_no_spanning_tree(p);
            }
        }
    }
    res
}

/// The minimum spanning tree of all nodes under the given edge states and
/// penalties, grown from node 0. Where states and distances are the same in
/// both directions, the tree is a cheapest among the spanning trees that
/// the states admit, and `None` says that there is none.
pub fn min_spanning_tree_of_all(
    distances_scaled: &EdgeDataMatrix<ScaledDistance>,
    edge_states: &EdgeDataMatrix<EdgeState>,
    penalties: &[ScaledDistance],
) -> (res: Option<Vec<UnEdge>>)
    requires
        distances_scaled.wf(),
        edge_states.wf(),
        distances_scaled.dimension >= 1,
        edge_states.dimension == distances_scaled.dimension,
        penalties@.len() == distances_scaled.dimension,
    ensures
        res is Some == spanning_tree(
            TreeProblem {
                dimension: distances_scaled.dimension as int,
                first: 0,
                distances: distances_scaled.data@,
                states: edge_states.data@,
                penalties: penalties@,
            },
        ) is Some,
        res is Some ==> res->0@ == spanning_tree(
            TreeProblem {
                dimension: distances_scaled.dimension as int,
                first: 0,
                distances: distances_scaled.data@,
                states: edge_states.data@,
                penalties: penalties@,
            },
        )->0,
        res is Some ==> res->0@.len() == distances_scaled.dimension - 1,
        is_symmetric(
            TreeProblem {
                dimension: distances_scaled.dimension as int,
                first: 0,
                distances: distances_scaled.data@,
                states: edge_states.data@,
                penalties: penalties@,
            },
        ) ==> match res {
            Some(tree) => is_spanning_tree(
                TreeProblem {
                    dimension: distances_scaled.dimension as int,
                    first: 0,
                    distances: distances_scaled.data@,
                    states: edge_states.data@,
                    penalties: penalties@,
                },
                tree@,
            ) && is_cheapest_spanning_tree(
                TreeProblem {
                    dimension: distances_scaled.dimension as int,
                    first: 0,
                    distances: distances_scaled.data@,
                    states: edge_states.data@,
                    penalties: penalties@,
                },
                tree@,
            ),
            None => admits_no_spanning_tree(
                TreeProblem {
                    dimension: distances_scaled.dimension as int,
                    first: 0,
                    distances: distances_scaled.data@,
                    states: edge_states.data@,
                    penalties: penalties@,
                },
            ),
        },
{
    let ghost p = TreeProblem {
        dimension: distances_scaled.dimension as int,
        first: 0,
        distances: distances_scaled.data@,
        states: edge_states.data@,
        penalties: penalties@,
    };
    let res = grow_spanning_tree(
        distances_scaled.data.as_slice(),
        edge_states.data.as_slice(),
        distances_scaled.dimension,
        0,
        penalties,
    );
    proof {
        if is_symmetric(p) {
            if res is Some {
                lemma_kernel_tree_is_a_spanning_tree(p);
                lemma_kernel_tree_is_cheapest(p);
            } else {
                lemma_no_kernel_tree_no_spanning_tree(p);
            }
        }
    }
    res
}

/// What a 1-tree is computed from: a full distance matrix, a full matrix of
/// edge states, and one penalty per node.
pub struct OneTreeProblem {
    pub dimension: int,
    pub distances: Seq<ScaledDistance>,
    pub states: Seq<EdgeState>,
    pub penalties: Seq<ScaledDistance>,
}

impl OneTreeProblem {
    /// The matrices are square over `dimension` nodes, of which there are at
    /// least two, and every node has a penalty.
    pub open spec fn wf(self) -> bool {
        &&& 2 <= self.dimension <= usize::MAX
        &&& self.distances.len() == self.dimension * self.dimension
        &&& self.states.len() == self.dimension * self.dimension
        &&& self.penalties.len() == self.dimension
    }

    /// The state of the edge from `from` to `to`.
    pub open spec fn state(self, from: int, to: int) -> EdgeState {
        self.states[from * self.dimension + to]
    }

    /// The reduced distance from `from` to `to`.
    pub open spec fn reduced(self, from: int, to: int) -> int {
        self.distances[from * self.dimension + to].0 - self.penalties[from].0
            - self.penalties[to].0
    }

    /// The spanning-tree problem on all nodes but node 0.
    pub open spec fn without_node_zero(self) -> TreeProblem {
        TreeProblem {
            dimension: self.dimension,
            first: 1,
            distances: self.distances.subrange(self.dimension, self.dimension * self.dimension),
            states: self.states.subrange(self.dimension, self.dimension * self.dimension),
            penalties: self.penalties,
        }
    }
}

/// The two cheapest usable edges at node 0 found so far: `cost_a <= cost_b`,
/// each with the neighbour it leads to once there is one.
pub struct TwoCheapest {
    pub cost_a: int,
    pub node_a: Option<int>,
    pub cost_b: int,
    pub node_b: Option<int>,
}

/// Nothing found yet.
pub open spec fn no_links() -> TwoCheapest {
    TwoCheapest { cost_a: UNREACHED as int, node_a: None, cost_b: UNREACHED as int, node_b: None }
}

/// What is known after the edge from node 0 to `v` has been looked at too.
/// `None` if that edge is the third `Fixed` edge at node 0.
pub open spec fn add_link(p: OneTreeProblem, found: TwoCheapest, v: int) -> Option<TwoCheapest> {
    match p.state(0, v) {
        EdgeState::Excluded => Some(found),
        EdgeState::Available => {
            let cost = p.reduced(0, v);
            if cost < found.cost_a {
                Some(
                    TwoCheapest {
                        cost_a: cost,
                        node_a: Some(v),
                        cost_b: found.cost_a,
                        node_b: found.node_a,
                    },
                )
            } else if cost < found.cost_b {
                Some(TwoCheapest { cost_b: cost, node_b: Some(v), ..found })
            } else {
                Some(found)
            }
        },
        EdgeState::Fixed => {
            if found.cost_b == FORCED as int {
                None
            } else {
                Some(
                    TwoCheapest {
                        cost_a: FORCED as int,
                        node_a: Some(v),
                        cost_b: found.cost_a,
                        node_b: found.node_a,
                    },
                )
            }
        },
    }
}

/// What is known after the edges from node 0 to the nodes `1..k` have been
/// looked at, in that order.
pub open spec fn links_below(p: OneTreeProblem, k: int) -> Option<TwoCheapest>
    decreases k,
{
    if k <= 1 {
        Some(no_links())
    } else {
        match links_below(p, k - 1) {
            None => None,
            Some(found) => add_link(p, found, k - 1),
        }
    }
}

/// Once the scan of node 0 has failed, it has failed for good.
pub proof fn lemma_links_failure_is_final(p: OneTreeProblem, failed: int, later: int)
    requires
        failed <= later,
        links_below(p, failed) is None,
    ensures
        links_below(p, later) is None,
    decreases later - failed,
{
    if failed < later {
        lemma_links_failure_is_final(p, failed, later - 1);
    }
}

/// The minimum 1-tree: the spanning tree of the nodes `1..n`, then the two
/// cheapest usable edges at node 0. `None` if there is no spanning tree, if
/// more than two `Fixed` edges meet at node 0, or if fewer than two usable
/// edges do.
pub open spec fn one_tree(p: OneTreeProblem) -> Option<Seq<UnEdge>> {
    match spanning_tree(p.without_node_zero()) {
        None => None,
        Some(tree) => match links_below(p, p.dimension) {
            None => None,
            Some(found) => match (found.node_a, found.node_b) {
                (Some(a), Some(b)) => Some(
                    tree.push(UnEdge { from: Node(0), to: Node(a as usize) }).push(
                        UnEdge { from: Node(0), to: Node(b as usize) },
                    ),
                ),
                _ => None,
            },
        },
    }
}

/// The minimum 1-tree under the given edge states and penalties: a spanning
/// tree of all nodes but node 0, and two edges at node 0. Where states and
/// distances are the same in both directions, it costs no more in reduced
/// distances than any tour that the states admit, and `None` says that they
/// admit no tour.
pub fn min_one_tree(
    distances_scaled: &EdgeDataMatrix<ScaledDistance>,
    edge_states: &EdgeDataMatrix<EdgeState>,
    penalties: &[ScaledDistance],
) -> (res: Option<Vec<UnEdge>>)
    requires
        distances_scaled.wf(),
        edge_states.wf(),
        distances_scaled.dimension >= 2,
        edge_states.dimension == distances_scaled.dimension,
        penalties@.len() == distances_scaled.dimension,
    ensures
        res is Some == one_tree(
            OneTreeProblem {
                dimension: distances_scaled.dimension as int,
                distances: distances_scaled.data@,
                states: edge_states.data@,
                penalties: penalties@,
            },
        ) is Some,
        res is Some ==> res->0@ == one_tree(
            OneTreeProblem {
                dimension: distances_scaled.dimension as int,
                distances: distances_scaled.data@,
                states: edge_states.data@,
                penalties: penalties@,
            },
        )->0,
        res is Some ==> res->0@.len() == distances_scaled.dimension,
        res is Some ==> forall|i: int|
            0 <= i < res->0@.len() ==> (#[trigger] res->0@[i]).from.0 < distances_scaled.dimension
                && res->0@[i].to.0 < distances_scaled.dimension && res->0@[i].from.0
                != res->0@[i].to.0,
        res matches Some(tree) ==> is_admitted_one_tree(
            distances_scaled.dimension as int,
            edge_states.data@,
            tree@,
        ),
        distances_scaled.dimension >= 3 && is_symmetric_matrix(
            distances_scaled.dimension as int,
            distances_scaled.data@,
        ) && is_symmetric_matrix(distances_scaled.dimension as int, edge_states.data@)
            ==> match res {
            Some(tree) => is_cheaper_than_tours(
                OneTreeProblem {
                    dimension: distances_scaled.dimension as int,
                    distances: distances_scaled.data@,
                    states: edge_states.data@,
                    penalties: penalties@,
                },
                tree@,
            ),
            None => admits_no_tour(distances_scaled.dimension as int, edge_states.data@),
        },
{
    let dimension = distances_scaled.dimension;
    let ghost p = OneTreeProblem {
        dimension: dimension as int,
        distances: distances_scaled.data@,
        states: edge_states.data@,
        penalties: penalties@,
    };
    proof {
        if one_tree(p) is Some {
            lemma_one_tree_is_admitted(p);
        }
        if dimension >= 3 && is_symmetric_matrix(p.dimension, p.distances)
            && is_symmetric_matrix(p.dimension, p.states) {
            if one_tree(p) is Some {
                lemma_one_tree_is_cheaper_than_tours(p);
            } else {
                lemma_no_one_tree_no_tour(p);
            }
        }
    }
    let (distances_zero, distances_rest) = distances_scaled.split_first_row();
    let (states_zero, states_rest) = edge_states.split_first_row();
    proof {
        assert(dimension <= dimension * dimension) by (nonlinear_arith)
            requires
                dimension >= 1,
        ;
        assert(distances_rest.data@ =~= p.without_node_zero().distances);
        assert(states_rest.data@ =~= p.without_node_zero().states);
        assert(distances_zero@ =~= p.distances.subrange(0, dimension as int));
        assert(states_zero@ =~= p.states.subrange(0, dimension as int));
    }
    let tree = match min_spanning_tree(distances_rest, states_rest, penalties) {
        None => {
            return None;
        },
        Some(tree) => tree,
    };
    let penalty_zero: i64 = penalties[0].0 as i64;
    let mut cost_a: i64 = UNREACHED;
    let mut cost_b: i64 = UNREACHED;
    let mut node_a: Option<usize> = None;
    let mut node_b: Option<usize> = None;
    let mut v: usize = 1;
    while v < dimension
        invariant
            p.wf(),
            p.dimension == dimension,
            p.distances == distances_scaled.data@,
            p.states == edge_states.data@,
            p.penalties == penalties@,
            dimension == distances_scaled.dimension,
            dimension <= dimension * dimension,
            distances_zero@ == p.distances.subrange(0, dimension as int),
            states_zero@ == p.states.subrange(0, dimension as int),
            penalty_zero == penalties@[0].0,
            node_a is None ==> cost_a == UNREACHED,
            node_b is None ==> cost_b == UNREACHED,
            cost_a <= cost_b,
            1 <= v <= dimension,
            links_below(p, v as int) == Some(
                TwoCheapest {
                    cost_a: cost_a as int,
                    node_a: match node_a {
                        Some(a) => Some(a as int),
                        None => None,
                    },
                    cost_b: cost_b as int,
                    node_b: match node_b {
                        Some(b) => Some(b as int),
                        None => None,
                    },
                },
            ),
            node_a matches Some(a) ==> 1 <= a < v,
            node_b matches Some(b) ==> 1 <= b < v,
            node_b is Some ==> node_a is Some && node_a != node_b,
            dimension >= 3 && is_symmetric_matrix(p.dimension, p.distances) && is_symmetric_matrix(
                p.dimension,
                p.states,
            ) && one_tree(p) is None ==> admits_no_tour(p.dimension, p.states),
        decreases dimension - v,
    {
        proof {
            assert(0 * p.dimension + v == v);
            assert(p.distances[v as int] == distances_zero@[v as int]);
            assert(p.states[v as int] == states_zero@[v as int]);
        }
        match states_zero[v] {
            EdgeState::Excluded => {},
            EdgeState::Available => {
                let cost: i64 = distances_zero[v].0 as i64 - penalty_zero - penalties[v].0 as i64;
                if cost < cost_a {
                    cost_b = cost_a;
                    node_b = node_a;
                    cost_a = cost;
                    node_a = Some(v);
                } else if cost < cost_b {
                    cost_b = cost;
                    node_b = Some(v);
                }
            },
            EdgeState::Fixed => {
                if cost_b == FORCED {
                    proof {
                        assert(links_below(p, v + 1) is None);
                        lemma_links_failure_is_final(p, v + 1, p.dimension);
                    }
                    return None;
                }
                cost_b = cost_a;
                node_b = node_a;
                cost_a = FORCED;
                node_a = Some(v);
            },
        }
        v = v + 1;
    }
    match (node_a, node_b) {
        (Some(neighbor_a), Some(neighbor_b)) => {
            let mut one_tree = tree;
            let ghost spanning = one_tree@;
            one_tree.push(UnEdge::new(Node(0), Node(neighbor_a)));
            one_tree.push(UnEdge::new(Node(0), Node(neighbor_b)));
            proof {
                assert forall|i: int| 0 <= i < one_tree@.len() implies (
                #[trigger] one_tree@[i]).from.0 < dimension && one_tree@[i].to.0 < dimension
                    && one_tree@[i].from.0 != one_tree@[i].to.0 by {
                    if i < spanning.len() {
                        assert(one_tree@[i] == spanning[i]);
                    }
                }
            }
            Some(one_tree)
        },
        _ => None,
    }
}

} // verus!
