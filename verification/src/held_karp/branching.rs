//! The choice of the edge to branch on, and the penalties to start from.

use crate::distance::truncating_div;
use crate::distance::ScaledDistance;
use crate::edge::UnEdge;
use crate::held_karp::edge_state::EdgeState;
use crate::held_karp::lower_bound::reduced_distance;
use crate::held_karp::trees::UNREACHED;
use crate::matrix::lemma_cell_in_range;
use crate::matrix::EdgeDataMatrix;
use crate::node::Node;
use vstd::prelude::*;

verus! {

/// Whether `edge` may be branched on: it joins two nodes of the graph and
/// is still `Available`.
pub open spec fn can_branch_on(dimension: int, states: Seq<EdgeState>, edge: UnEdge) -> bool {
    &&& states.len() == dimension * dimension
    &&& edge.from.0 < dimension
    &&& edge.to.0 < dimension
    &&& states[edge.from.0 * dimension + edge.to.0] == EdgeState::Available
}

/// The position in `edges`, below `k`, of the first edge that may be
/// branched on and whose reduced distance is the least of all such edges
/// below `k`; `None` if there is none.
pub open spec fn branching_position(
    dimension: int,
    distances: Seq<ScaledDistance>,
    states: Seq<EdgeState>,
    penalties: Seq<ScaledDistance>,
    edges: Seq<UnEdge>,
    k: int,
) -> Option<int>
    decreases k,
{
    if k <= 0 {
        None
    } else {
        let before = branching_position(dimension, distances, states, penalties, edges, k - 1);
        let bound = match before {
            Some(i) => reduced_distance(
                dimension,
                distances,
                penalties,
                edges[i].from.0 as int,
                edges[i].to.0 as int,
            ),
            None => UNREACHED as int,
        };
        if can_branch_on(dimension, states, edges[k - 1]) && reduced_distance(
            dimension,
            distances,
            penalties,
            edges[k - 1].from.0 as int,
            edges[k - 1].to.0 as int,
        ) < bound {
            Some(k - 1)
        } else {
            before
        }
    }
}

/// The edge of `edges` to branch on: the first `Available` one of least
/// reduced distance.
pub open spec fn branching_edge(
    dimension: int,
    distances: Seq<ScaledDistance>,
    states: Seq<EdgeState>,
    penalties: Seq<ScaledDistance>,
    edges: Seq<UnEdge>,
) -> Option<UnEdge> {
    match branching_position(
        dimension,
        distances,
        states,
        penalties,
        edges,
        edges.len() as int,
    ) {
        Some(i) => Some(edges[i]),
        None => None,
    }
}

/// The edge to branch on may be branched on.
pub proof fn lemma_branching_edge_is_available(
    dimension: int,
    distances: Seq<ScaledDistance>,
    states: Seq<EdgeState>,
    penalties: Seq<ScaledDistance>,
    edges: Seq<UnEdge>,
    k: int,
)
    ensures
        branching_position(dimension, distances, states, penalties, edges, k) matches Some(i)
            ==> 0 <= i < k && can_branch_on(dimension, states, edges[i]),
    decreases k,
{
    if k > 0 {
        lemma_branching_edge_is_available(dimension, distances, states, penalties, edges, k - 1);
    }
}

/// The chosen position holds an edge that may be branched on, no such edge
/// below `k` is cheaper, and none before it is as cheap. Where no position
/// is chosen, no edge below `k` may be branched on.
pub proof fn lemma_branching_position(
    dimension: int,
    distances: Seq<ScaledDistance>,
    states: Seq<EdgeState>,
    penalties: Seq<ScaledDistance>,
    edges: Seq<UnEdge>,
    k: int,
)
    requires
        0 <= k <= edges.len(),
        distances.len() == dimension * dimension,
        penalties.len() == dimension,
    ensures
        match branching_position(dimension, distances, states, penalties, edges, k) {
            Some(i) => {
                &&& 0 <= i < k
                &&& can_branch_on(dimension, states, edges[i])
                &&& forall|j: int|
                    0 <= j < k && can_branch_on(dimension, states, #[trigger] edges[j])
                        ==> reduced_distance(
                        dimension,
                        distances,
                        penalties,
                        edges[i].from.0 as int,
                        edges[i].to.0 as int,
                    ) <= reduced_distance(
                        dimension,
                        distances,
                        penalties,
                        edges[j].from.0 as int,
                        edges[j].to.0 as int,
                    )
                &&& forall|j: int|
                    0 <= j < i && can_branch_on(dimension, states, #[trigger] edges[j])
                        ==> reduced_distance(
                        dimension,
                        distances,
                        penalties,
                        edges[i].from.0 as int,
                        edges[i].to.0 as int,
                    ) < reduced_distance(
                        dimension,
                        distances,
                        penalties,
                        edges[j].from.0 as int,
                        edges[j].to.0 as int,
                    )
            },
            None => forall|j: int|
                0 <= j < k ==> !can_branch_on(dimension, states, #[trigger] edges[j]),
        },
    decreases k,
{
    if k > 0 {
        lemma_branching_position(dimension, distances, states, penalties, edges, k - 1);
        if can_branch_on(dimension, states, edges[k - 1]) {
            lemma_cell_in_range(
                edges[k - 1].from.0 as int,
                edges[k - 1].to.0 as int,
                dimension,
            );
        }
    }
}

/// The edge of `one_tree` to branch on: among its `Available` edges the
/// first of least reduced distance. `None` if none of its edges is
/// `Available`.
pub fn edge_to_branch_on(
    scaled_distances: &EdgeDataMatrix<ScaledDistance>,
    edge_states: &EdgeDataMatrix<EdgeState>,
    node_penalties: &Vec<ScaledDistance>,
    one_tree: &Vec<UnEdge>,
) -> (res: Option<UnEdge>)
    requires
        scaled_distances.wf(),
        edge_states.wf(),
        edge_states.dimension == scaled_distances.dimension,
        node_penalties@.len() == scaled_distances.dimension,
        forall|i: int|
            0 <= i < one_tree@.len() ==> (#[trigger] one_tree@[i]).from.0
                < scaled_distances.dimension && one_tree@[i].to.0 < scaled_distances.dimension,
    ensures
        res == branching_edge(
            scaled_distances.dimension as int,
            scaled_distances.data@,
            edge_states.data@,
            node_penalties@,
            one_tree@,
        ),
        res matches Some(edge) ==> can_branch_on(
            scaled_distances.dimension as int,
            edge_states.data@,
            edge,
        ),
        res matches Some(edge) ==> exists|i: int|
            0 <= i < one_tree@.len() && #[trigger] one_tree@[i] == edge,
        res is None ==> forall|i: int|
            0 <= i < one_tree@.len() ==> !can_branch_on(
                scaled_distances.dimension as int,
                edge_states.data@,
                #[trigger] one_tree@[i],
            ),
{
    let ghost n = scaled_distances.dimension as int;
    let mut minimum_edge: Option<UnEdge> = None;
    let mut minimum_distance: i64 = UNREACHED;
    let ghost mut position: Option<int> = None;
    let mut i: usize = 0;
    while i < one_tree.len()
        invariant
            i <= one_tree.len(),
            n == scaled_distances.dimension,
            scaled_distances.wf(),
            edge_states.wf(),
            edge_states.dimension == scaled_distances.dimension,
            node_penalties@.len() == scaled_distances.dimension,
            forall|k: int|
                0 <= k < one_tree@.len() ==> (#[trigger] one_tree@[k]).from.0
                    < scaled_distances.dimension && one_tree@[k].to.0
                    < scaled_distances.dimension,
            position == branching_position(
                n,
                scaled_distances.data@,
                edge_states.data@,
                node_penalties@,
                one_tree@,
                i as int,
            ),
            match position {
                Some(at) => 0 <= at < i && minimum_edge == Some(one_tree@[at])
                    && minimum_distance == reduced_distance(
                    n,
                    scaled_distances.data@,
                    node_penalties@,
                    one_tree@[at].from.0 as int,
                    one_tree@[at].to.0 as int,
                ),
                None => minimum_edge is None && minimum_distance == UNREACHED,
            },
        decreases one_tree.len() - i,
    {
        let edge = one_tree[i];
        if edge_states.get_data(edge.from, edge.to) == EdgeState::Available {
            let reduced: i64 = scaled_distances.get_data(edge.from, edge.to).0 as i64
                - node_penalties[edge.from.0].0 as i64 - node_penalties[edge.to.0].0 as i64;
            if reduced < minimum_distance {
                minimum_distance = reduced;
                minimum_edge = Some(edge);
                proof {
                    position = Some(i as int);
                }
            }
        }
        i = i + 1;
    }
    proof {
        lemma_branching_position(
            n,
            scaled_distances.data@,
            edge_states.data@,
            node_penalties@,
            one_tree@,
            one_tree@.len() as int,
        );
    }
    minimum_edge
}

/// The least distance in the row of `node` to a node below `k` other than
/// `node` itself; `i32::MAX` if there is no such node.
pub open spec fn row_minimum(
    dimension: int,
    distances: Seq<ScaledDistance>,
    node: int,
    k: int,
) -> int
    decreases k,
{
    if k <= 0 {
        i32::MAX as int
    } else {
        let before = row_minimum(dimension, distances, node, k - 1);
        if k - 1 != node && distances[node * dimension + (k - 1)].0 < before {
            distances[node * dimension + (k - 1)].0 as int
        } else {
            before
        }
    }
}

/// The row minimum is at most every distance it ranges over, and it is one
/// of them or `i32::MAX`.
pub proof fn lemma_row_minimum(dimension: int, distances: Seq<ScaledDistance>, node: int, k: int)
    requires
        0 <= k,
    ensures
        forall|u: int|
            0 <= u < k && u != node ==> row_minimum(dimension, distances, node, k) <= (
            #[trigger] distances[node * dimension + u]).0,
        row_minimum(dimension, distances, node, k) == i32::MAX || exists|u: int|
            0 <= u < k && u != node && row_minimum(dimension, distances, node, k) == (
            #[trigger] distances[node * dimension + u]).0,
    decreases k,
{
    if k > 0 {
        lemma_row_minimum(dimension, distances, node, k - 1);
        let before = row_minimum(dimension, distances, node, k - 1);
        if k - 1 != node && distances[node * dimension + (k - 1)].0 < before {
            assert(row_minimum(dimension, distances, node, k) == distances[node * dimension + (k
                - 1)].0);
        } else if before != i32::MAX {
            let u = choose|u: int|
                0 <= u < k - 1 && u != node && before == (#[trigger] distances[node * dimension
                    + u]).0;
            assert(0 <= u < k && u != node && row_minimum(dimension, distances, node, k)
                == distances[node * dimension + u].0);
        }
    }
}

/// The penalties that the search starts from: for every node, half the
/// distance to its nearest other node, rounded toward zero.
pub fn initial_penalties(
    scaled_distances: &EdgeDataMatrix<ScaledDistance>,
    dimension: usize,
) -> (res: Vec<ScaledDistance>)
    requires
        scaled_distances.wf(),
        scaled_distances.dimension == dimension,
    ensures
        res@.len() == dimension,
        forall|v: int|
            0 <= v < dimension ==> (#[trigger] res@[v]).0 == truncating_div(
                row_minimum(dimension as int, scaled_distances.data@, v, dimension as int),
                2,
            ),
{
    let ghost n = dimension as int;
    let mut penalties: Vec<ScaledDistance> = Vec::with_capacity(dimension);
    let mut from: usize = 0;
    while from < dimension
        invariant
            from <= dimension,
            n == dimension,
            scaled_distances.wf(),
            scaled_distances.dimension == dimension,
            penalties@.len() == from,
            forall|v: int|
                0 <= v < from ==> (#[trigger] penalties@[v]).0 == truncating_div(
                    row_minimum(n, scaled_distances.data@, v, n),
                    2,
                ),
        decreases dimension - from,
    {
        let row = scaled_distances.get_adjacency_list(Node(from));
        let mut nearest: i32 = i32::MAX;
        let mut to: usize = 0;
        while to < dimension
            invariant
                to <= dimension,
                from < dimension,
                n == dimension,
                scaled_distances.wf(),
                scaled_distances.dimension == dimension,
                row@.len() == dimension,
                forall|c: int|
                    0 <= c < dimension ==> row@[c] == scaled_distances.entry(from as int, c),
                nearest == row_minimum(n, scaled_distances.data@, from as int, to as int),
            decreases dimension - to,
        {
            if to != from && row[to].0 < nearest {
                nearest = row[to].0;
            }
            to = to + 1;
        }
        penalties.push(ScaledDistance(nearest) / 2);
        from = from + 1;
    }
    penalties
}

} // verus!
