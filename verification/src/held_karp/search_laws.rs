//! Why the search loses no tour.
//!
//! A tour that the edge states admit either uses the branching edge or does
//! not. In the first case it is admitted with the edge fixed, in the second
//! with the edge excluded. A node with two fixed edges has no room for a
//! third.

use crate::distance::Distance;
use crate::edge::UnEdge;
use crate::edge::degree;
use crate::held_karp::branching::can_branch_on;
use crate::held_karp::edge_state::EdgeState;
use crate::held_karp::one_tree_laws::admits_no_tour;
use crate::held_karp::one_tree_laws::all_of_degree_two;
use crate::held_karp::one_tree_laws::bounds_admitted_tours;
use crate::held_karp::one_tree_laws::cell_at;
use crate::held_karp::one_tree_laws::is_admitted_one_tree;
use crate::held_karp::one_tree_laws::is_admitted_tour;
use crate::held_karp::one_tree_laws::is_symmetric_matrix;
use crate::held_karp::one_tree_laws::on_tour;
use crate::held_karp::one_tree_laws::state_at;
use crate::held_karp::one_tree_laws::takes_admitted_edge;
use crate::held_karp::one_tree_laws::tour_cost;
use crate::held_karp::search::with_fixed_edge;
use crate::held_karp::search::with_state;
use crate::held_karp::tours::lemma_degree_of_push;
use crate::held_karp::tree_laws::lists;
use crate::held_karp::tree_laws::next_on_cycle;
use crate::matrix::lemma_cell_in_range;
use crate::matrix::lemma_cell_index_injective;
use vstd::prelude::*;

verus! {

/// What bounds the cost of every tour from below does so when it is made
/// smaller.
pub proof fn lemma_smaller_bounds(
    dimension: int,
    distances: Seq<Distance>,
    states: Seq<EdgeState>,
    bound: int,
    smaller: int,
)
    requires
        bounds_admitted_tours(dimension, distances, states, bound),
        smaller <= bound,
    ensures
        bounds_admitted_tours(dimension, distances, states, smaller),
{
    reveal(bounds_admitted_tours);
}

/// Where the edge states admit no tour, everything bounds the cost of every
/// tour that they admit.
pub proof fn lemma_no_tour_to_bound(
    dimension: int,
    distances: Seq<Distance>,
    states: Seq<EdgeState>,
    bound: int,
)
    requires
        admits_no_tour(dimension, states),
    ensures
        bounds_admitted_tours(dimension, distances, states, bound),
{
    reveal(bounds_admitted_tours);
    reveal(admits_no_tour);
}

/// The place of a node on a tour.
pub proof fn lemma_place_on_tour(order: Seq<int>, v: int) -> (at: int)
    requires
        lists(order, v),
    ensures
        0 <= at < order.len(),
        order[at] == v,
{
    choose|i: int| 0 <= i < order.len() && #[trigger] order[i] == v
}

/// The place before `i` on a cycle of `length` places.
pub open spec fn previous_on_cycle(i: int, length: int) -> int {
    if i == 0 {
        length - 1
    } else {
        i - 1
    }
}

/// On a tour every node has two neighbours: a node next to `v` is the one
/// after it or the one before it.
pub proof fn lemma_neighbours_on_tour(order: Seq<int>, at: int, w: int)
    requires
        order.len() >= 1,
        forall|i: int, j: int| 0 <= i < j < order.len() ==> order[i] != order[j],
        0 <= at < order.len(),
        on_tour(order, order[at], w),
    ensures
        w == order[next_on_cycle(at, order.len() as int)] || w == order[previous_on_cycle(
            at,
            order.len() as int,
        )],
{
    let n = order.len() as int;
    let v = order[at];
    let i = choose|i: int|
        0 <= i < order.len() && (#[trigger] order[i] == v && order[next_on_cycle(i, n)] == w
            || order[i] == w && order[next_on_cycle(i, n)] == v);
    if order[i] == v {
        if i < at {
            assert(order[i] != order[at]);
        } else if at < i {
            assert(order[at] != order[i]);
        }
    } else {
        let j = next_on_cycle(i, n);
        if j < at {
            assert(order[j] != order[at]);
        } else if at < j {
            assert(order[at] != order[j]);
        }
        assert(i == previous_on_cycle(at, n));
    }
}

/// No tour goes from one node to three different nodes.
pub proof fn lemma_no_third_neighbour(order: Seq<int>, v: int, a: int, b: int, c: int)
    requires
        order.len() >= 1,
        forall|i: int, j: int| 0 <= i < j < order.len() ==> order[i] != order[j],
        lists(order, v),
        on_tour(order, v, a),
        on_tour(order, v, b),
        on_tour(order, v, c),
    ensures
        a == b || a == c || b == c,
{
    let at = lemma_place_on_tour(order, v);
    lemma_neighbours_on_tour(order, at, a);
    lemma_neighbours_on_tour(order, at, b);
    lemma_neighbours_on_tour(order, at, c);
}

/// What the state of an edge is after both cells of another edge have been
/// set.
pub proof fn lemma_state_after_deciding(
    dimension: int,
    states: Seq<EdgeState>,
    edge: UnEdge,
    state: EdgeState,
    u: int,
    v: int,
)
    requires
        states.len() == dimension * dimension,
        edge.from.0 < dimension,
        edge.to.0 < dimension,
        0 <= u < dimension,
        0 <= v < dimension,
    ensures
        state_at(dimension, with_state(dimension, states, edge, state), u, v) == if (u
            == edge.from.0 && v == edge.to.0) || (u == edge.to.0 && v == edge.from.0) {
            state
        } else {
            state_at(dimension, states, u, v)
        },
{
    lemma_cell_in_range(u, v, dimension);
    lemma_cell_in_range(edge.from.0 as int, edge.to.0 as int, dimension);
    lemma_cell_in_range(edge.to.0 as int, edge.from.0 as int, dimension);
    if u * dimension + v == edge.from.0 * dimension + edge.to.0 {
        lemma_cell_index_injective(u, v, edge.from.0 as int, edge.to.0 as int, dimension);
    }
    if u * dimension + v == edge.to.0 * dimension + edge.from.0 {
        lemma_cell_index_injective(u, v, edge.to.0 as int, edge.from.0 as int, dimension);
    }
}

/// A tour that the edge states admit and that does not use an edge is
/// admitted with that edge excluded, if the edge is not fixed.
pub proof fn lemma_admitted_without_edge(
    dimension: int,
    states: Seq<EdgeState>,
    edge: UnEdge,
    order: Seq<int>,
)
    requires
        states.len() == dimension * dimension,
        edge.from.0 < dimension,
        edge.to.0 < dimension,
        is_admitted_tour(dimension, states, order),
        !on_tour(order, edge.from.0 as int, edge.to.0 as int),
    ensures
        is_admitted_tour(
            dimension,
            with_state(dimension, states, edge, EdgeState::Excluded),
            order,
        ),
{
    let after = with_state(dimension, states, edge, EdgeState::Excluded);
    assert forall|i: int| 0 <= i < order.len() implies #[trigger] takes_admitted_edge(
        dimension,
        after,
        order,
        i,
    ) by {
        assert(takes_admitted_edge(dimension, states, order, i));
        let u = order[i];
        let v = order[next_on_cycle(i, order.len() as int)];
        lemma_state_after_deciding(dimension, states, edge, EdgeState::Excluded, u, v);
    }
    assert forall|u: int, v: int|
        0 <= u < dimension && 0 <= v < dimension && u != v && #[trigger] state_at(
            dimension,
            after,
            u,
            v,
        ) == EdgeState::Fixed implies on_tour(order, u, v) by {
        lemma_state_after_deciding(dimension, states, edge, EdgeState::Excluded, u, v);
        assert(state_at(dimension, states, u, v) == EdgeState::Fixed);
    }
}

/// A tour that the edge states admit and that uses an edge is admitted with
/// that edge fixed.
pub proof fn lemma_admitted_with_edge(
    dimension: int,
    states: Seq<EdgeState>,
    edge: UnEdge,
    order: Seq<int>,
)
    requires
        states.len() == dimension * dimension,
        edge.from.0 < dimension,
        edge.to.0 < dimension,
        is_admitted_tour(dimension, states, order),
        on_tour(order, edge.from.0 as int, edge.to.0 as int),
    ensures
        is_admitted_tour(dimension, with_state(dimension, states, edge, EdgeState::Fixed), order),
{
    let after = with_state(dimension, states, edge, EdgeState::Fixed);
    assert forall|i: int| 0 <= i < order.len() implies #[trigger] takes_admitted_edge(
        dimension,
        after,
        order,
        i,
    ) by {
        assert(takes_admitted_edge(dimension, states, order, i));
        let u = order[i];
        let v = order[next_on_cycle(i, order.len() as int)];
        lemma_state_after_deciding(dimension, states, edge, EdgeState::Fixed, u, v);
    }
    assert forall|u: int, v: int|
        0 <= u < dimension && 0 <= v < dimension && u != v && #[trigger] state_at(
            dimension,
            after,
            u,
            v,
        ) == EdgeState::Fixed implies on_tour(order, u, v) by {
        lemma_state_after_deciding(dimension, states, edge, EdgeState::Fixed, u, v);
        if (u == edge.from.0 && v == edge.to.0) || (u == edge.to.0 && v == edge.from.0) {
            lemma_on_tour_is_unordered(order, edge.from.0 as int, edge.to.0 as int);
        } else {
            assert(state_at(dimension, states, u, v) == EdgeState::Fixed);
        }
    }
}

/// A tour that goes from `u` to `v` or back goes from `v` to `u` or back.
pub proof fn lemma_on_tour_is_unordered(order: Seq<int>, u: int, v: int)
    requires
        on_tour(order, u, v),
    ensures
        on_tour(order, v, u),
{
    let n = order.len() as int;
    let i = choose|i: int|
        0 <= i < order.len() && (#[trigger] order[i] == u && order[next_on_cycle(i, n)] == v
            || order[i] == v && order[next_on_cycle(i, n)] == u);
    assert(order[i] == v && order[next_on_cycle(i, n)] == u || order[i] == u && order[next_on_cycle(
        i,
        n,
    )] == v);
}

/// What bounds the tours without an edge and the tours with it bounds all
/// tours.
pub proof fn lemma_both_branches(
    dimension: int,
    distances: Seq<Distance>,
    states: Seq<EdgeState>,
    edge: UnEdge,
    without: int,
    with: int,
)
    requires
        states.len() == dimension * dimension,
        edge.from.0 < dimension,
        edge.to.0 < dimension,
        bounds_admitted_tours(
            dimension,
            distances,
            with_state(dimension, states, edge, EdgeState::Excluded),
            without,
        ),
        bounds_admitted_tours(
            dimension,
            distances,
            with_state(dimension, states, edge, EdgeState::Fixed),
            with,
        ),
        with <= without,
    ensures
        bounds_admitted_tours(dimension, distances, states, with),
{
    reveal(bounds_admitted_tours);
    assert forall|order: Seq<int>| #[trigger]
        is_admitted_tour(dimension, states, order) implies with
        <= tour_cost(dimension, distances, order, dimension) by {
        if on_tour(order, edge.from.0 as int, edge.to.0 as int) {
            lemma_admitted_with_edge(dimension, states, edge, order);
        } else {
            lemma_admitted_without_edge(dimension, states, edge, order);
        }
    }
}

/// Where no tour that the edge states admit uses an edge, what bounds the
/// tours without the edge bounds all tours.
pub proof fn lemma_one_branch(
    dimension: int,
    distances: Seq<Distance>,
    states: Seq<EdgeState>,
    edge: UnEdge,
    without: int,
)
    requires
        states.len() == dimension * dimension,
        edge.from.0 < dimension,
        edge.to.0 < dimension,
        bounds_admitted_tours(
            dimension,
            distances,
            with_state(dimension, states, edge, EdgeState::Excluded),
            without,
        ),
        forall|order: Seq<int>| #[trigger]
            is_admitted_tour(dimension, states, order) ==> !on_tour(
                order,
                edge.from.0 as int,
                edge.to.0 as int,
            ),
    ensures
        bounds_admitted_tours(dimension, distances, states, without),
{
    reveal(bounds_admitted_tours);
    assert forall|order: Seq<int>| #[trigger]
        is_admitted_tour(dimension, states, order) implies without
        <= tour_cost(dimension, distances, order, dimension) by {
        lemma_admitted_without_edge(dimension, states, edge, order);
    }
}

/// The number of `Fixed` edges from `v` to other nodes below `k`.
pub open spec fn fixed_count(dimension: int, states: Seq<EdgeState>, v: int, k: int) -> int
    decreases k,
{
    if k <= 0 {
        0
    } else {
        fixed_count(dimension, states, v, k - 1) + if k - 1 != v && state_at(
            dimension,
            states,
            v,
            k - 1,
        ) == EdgeState::Fixed {
            1int
        } else {
            0int
        }
    }
}

/// Whether `fixed` counts, for every node, the `Fixed` edges at it.
#[verifier::opaque]
pub open spec fn degrees_counted(dimension: int, states: Seq<EdgeState>, fixed: Seq<u32>) -> bool {
    &&& fixed.len() == dimension
    &&& forall|v: int|
        0 <= v < dimension ==> #[trigger] fixed[v] == fixed_count(dimension, states, v, dimension)
}

/// Deciding an `Available` edge adds one `Fixed` edge at both of its ends
/// if the edge is fixed, and none if it is excluded.
pub proof fn lemma_count_after_deciding(
    dimension: int,
    states: Seq<EdgeState>,
    edge: UnEdge,
    state: EdgeState,
    v: int,
    k: int,
)
    requires
        states.len() == dimension * dimension,
        edge.from.0 < dimension,
        edge.to.0 < dimension,
        edge.from.0 != edge.to.0,
        state_at(dimension, states, edge.from.0 as int, edge.to.0 as int) != EdgeState::Fixed,
        state_at(dimension, states, edge.to.0 as int, edge.from.0 as int) != EdgeState::Fixed,
        0 <= v < dimension,
        0 <= k <= dimension,
    ensures
        fixed_count(dimension, with_state(dimension, states, edge, state), v, k) == fixed_count(
            dimension,
            states,
            v,
            k,
        ) + if state == EdgeState::Fixed && ((v == edge.from.0 && edge.to.0 < k) || (v
            == edge.to.0 && edge.from.0 < k)) {
            1int
        } else {
            0int
        },
    decreases k,
{
    if k > 0 {
        lemma_count_after_deciding(dimension, states, edge, state, v, k - 1);
        lemma_state_after_deciding(dimension, states, edge, state, v, k - 1);
    }
}

/// Where a node has two `Fixed` edges, they lead to two different nodes.
pub proof fn lemma_two_fixed_edges(
    dimension: int,
    states: Seq<EdgeState>,
    v: int,
    k: int,
) -> (found: (int, int))
    requires
        fixed_count(dimension, states, v, k) >= 2,
    ensures
        0 <= found.0 < found.1 < k,
        found.0 != v,
        found.1 != v,
        state_at(dimension, states, v, found.0) == EdgeState::Fixed,
        state_at(dimension, states, v, found.1) == EdgeState::Fixed,
    decreases k,
{
    if k - 1 != v && state_at(dimension, states, v, k - 1) == EdgeState::Fixed {
        if fixed_count(dimension, states, v, k - 1) >= 2 {
            lemma_two_fixed_edges(dimension, states, v, k - 1)
        } else {
            let other = lemma_one_fixed_edge(dimension, states, v, k - 1);
            (other, k - 1)
        }
    } else {
        lemma_two_fixed_edges(dimension, states, v, k - 1)
    }
}

/// Where a node has a `Fixed` edge, it leads to another node.
pub proof fn lemma_one_fixed_edge(dimension: int, states: Seq<EdgeState>, v: int, k: int) -> (found:
    int)
    requires
        fixed_count(dimension, states, v, k) >= 1,
    ensures
        0 <= found < k,
        found != v,
        state_at(dimension, states, v, found) == EdgeState::Fixed,
    decreases k,
{
    if k - 1 != v && state_at(dimension, states, v, k - 1) == EdgeState::Fixed {
        k - 1
    } else {
        lemma_one_fixed_edge(dimension, states, v, k - 1)
    }
}

/// A node with two `Fixed` edges has no room for another edge: no tour that
/// the edge states admit uses an `Available` edge at that node.
pub proof fn lemma_no_room(
    dimension: int,
    states: Seq<EdgeState>,
    v: int,
    w: int,
    order: Seq<int>,
)
    requires
        dimension >= 1,
        0 <= v < dimension,
        0 <= w < dimension,
        fixed_count(dimension, states, v, dimension) >= 2,
        state_at(dimension, states, v, w) != EdgeState::Fixed,
        is_admitted_tour(dimension, states, order),
    ensures
        !on_tour(order, v, w),
{
    let (a, b) = lemma_two_fixed_edges(dimension, states, v, dimension);
    assert(on_tour(order, v, a));
    assert(on_tour(order, v, b));
    assert(lists(order, v));
    if on_tour(order, v, w) {
        lemma_no_third_neighbour(order, v, a, b, w);
    }
}

/// The end of `edge` that is not `node`.
pub open spec fn other_end(edge: UnEdge, node: int) -> int {
    if edge.from.0 == node {
        edge.to.0 as int
    } else {
        edge.from.0 as int
    }
}

/// A node of degree 1 or more has an edge.
pub proof fn lemma_one_touching(edges: Seq<UnEdge>, node: int) -> (i: int)
    requires
        degree(edges, node) >= 1,
    ensures
        0 <= i < edges.len(),
        edges[i].touches(node),
    decreases edges.len(),
{
    if edges.last().touches(node) {
        edges.len() - 1
    } else {
        let i = lemma_one_touching(edges.drop_last(), node);
        assert(edges.drop_last()[i] == edges[i]);
        i
    }
}

/// A node of degree 2 or more has two edges, where no edge joins a node to
/// itself.
pub proof fn lemma_two_touching(edges: Seq<UnEdge>, node: int) -> (found: (int, int))
    requires
        degree(edges, node) >= 2,
        forall|i: int| 0 <= i < edges.len() ==> (#[trigger] edges[i]).from.0 != edges[i].to.0,
    ensures
        0 <= found.0 < found.1 < edges.len(),
        edges[found.0].touches(node),
        edges[found.1].touches(node),
    decreases edges.len(),
{
    let prefix = edges.drop_last();
    assert(edges.last() == edges[edges.len() - 1]);
    assert forall|i: int| 0 <= i < prefix.len() implies (#[trigger] prefix[i]).from.0
        != prefix[i].to.0 by {
        assert(prefix[i] == edges[i]);
    }
    if edges.last().touches(node) && degree(prefix, node) < 2 {
        let i = lemma_one_touching(prefix, node);
        assert(prefix[i] == edges[i]);
        (i, edges.len() - 1)
    } else {
        let (i, j) = lemma_two_touching(prefix, node);
        assert(prefix[i] == edges[i] && prefix[j] == edges[j]);
        (i, j)
    }
}

/// A node of degree 3 or more has three edges, where no edge joins a node
/// to itself.
pub proof fn lemma_three_touching(edges: Seq<UnEdge>, node: int) -> (found: (int, int, int))
    requires
        degree(edges, node) >= 3,
        forall|i: int| 0 <= i < edges.len() ==> (#[trigger] edges[i]).from.0 != edges[i].to.0,
    ensures
        0 <= found.0 < found.1 < found.2 < edges.len(),
        edges[found.0].touches(node),
        edges[found.1].touches(node),
        edges[found.2].touches(node),
    decreases edges.len(),
{
    let prefix = edges.drop_last();
    assert(edges.last() == edges[edges.len() - 1]);
    assert forall|i: int| 0 <= i < prefix.len() implies (#[trigger] prefix[i]).from.0
        != prefix[i].to.0 by {
        assert(prefix[i] == edges[i]);
    }
    if edges.last().touches(node) && degree(prefix, node) < 3 {
        let (i, j) = lemma_two_touching(prefix, node);
        assert(prefix[i] == edges[i] && prefix[j] == edges[j]);
        (i, j, edges.len() - 1)
    } else {
        let (i, j, k) = lemma_three_touching(prefix, node);
        assert(prefix[i] == edges[i] && prefix[j] == edges[j] && prefix[k] == edges[k]);
        (i, j, k)
    }
}

/// The sum of the degrees of the nodes below `k`.
pub open spec fn total_degree(edges: Seq<UnEdge>, k: int) -> int
    decreases k,
{
    if k <= 0 {
        0
    } else {
        total_degree(edges, k - 1) + degree(edges, k - 1)
    }
}

/// One edge more adds one to the sum of the degrees for each of its ends
/// below `k`.
pub proof fn lemma_total_degree_of_push(edges: Seq<UnEdge>, edge: UnEdge, k: int)
    ensures
        total_degree(edges.push(edge), k) == total_degree(edges, k) + if 0 <= edge.from.0 < k {
            1int
        } else {
            0int
        } + if 0 <= edge.to.0 < k {
            1int
        } else {
            0int
        },
    decreases k,
{
    if k > 0 {
        lemma_total_degree_of_push(edges, edge, k - 1);
        lemma_degree_of_push(edges, edge, k - 1);
    }
}

/// The degrees of all nodes add up to twice the number of edges.
pub proof fn lemma_total_degree(edges: Seq<UnEdge>, dimension: int)
    requires
        forall|i: int|
            0 <= i < edges.len() ==> (#[trigger] edges[i]).from.0 < dimension && edges[i].to.0
                < dimension,
    ensures
        total_degree(edges, dimension) == 2 * edges.len(),
    decreases edges.len(),
{
    if edges.len() == 0 {
        lemma_no_edges_no_degree(edges, dimension);
    } else {
        let prefix = edges.drop_last();
        assert forall|i: int| 0 <= i < prefix.len() implies (#[trigger] prefix[i]).from.0
            < dimension && prefix[i].to.0 < dimension by {
            assert(prefix[i] == edges[i]);
        }
        lemma_total_degree(prefix, dimension);
        assert(edges =~= prefix.push(edges.last()));
        assert(edges.last() == edges[edges.len() - 1]);
        lemma_total_degree_of_push(prefix, edges.last(), dimension);
    }
}

/// Without edges all degrees are zero.
pub proof fn lemma_no_edges_no_degree(edges: Seq<UnEdge>, k: int)
    requires
        edges.len() == 0,
    ensures
        total_degree(edges, k) == 0,
    decreases k,
{
    if k > 0 {
        lemma_no_edges_no_degree(edges, k - 1);
    }
}

/// Where no degree is above 2 and the degrees add up to twice the number
/// of nodes, every degree is 2.
pub proof fn lemma_degrees_are_two(edges: Seq<UnEdge>, k: int)
    requires
        0 <= k,
        forall|node: int| 0 <= node < k ==> degree(edges, node) <= 2,
    ensures
        total_degree(edges, k) <= 2 * k,
        total_degree(edges, k) == 2 * k ==> forall|node: int|
            0 <= node < k ==> degree(edges, node) == 2,
    decreases k,
{
    if k > 0 {
        lemma_degrees_are_two(edges, k - 1);
        assert(degree(edges, k - 1) <= 2);
    }
}

/// No tour that the edge states admit holds three `Fixed` edges at one
/// node: a node of a 1-tree whose edges are all `Fixed` has degree 2 at
/// most where the edge states admit a tour.
pub proof fn lemma_fixed_degree_is_small(
    dimension: int,
    states: Seq<EdgeState>,
    tree: Seq<UnEdge>,
    order: Seq<int>,
    node: int,
)
    requires
        dimension >= 1,
        is_symmetric_matrix(dimension, states),
        is_admitted_one_tree(dimension, states, tree),
        forall|i: int|
            0 <= i < tree.len() ==> state_at(
                dimension,
                states,
                (#[trigger] tree[i]).from.0 as int,
                tree[i].to.0 as int,
            ) == EdgeState::Fixed,
        is_admitted_tour(dimension, states, order),
        0 <= node < dimension,
    ensures
        degree(tree, node) <= 2,
{
    if degree(tree, node) >= 3 {
        let (i, j, k) = lemma_three_touching(tree, node);
        let a = other_end(tree[i], node);
        let b = other_end(tree[j], node);
        let c = other_end(tree[k], node);
        assert(!tree[i].same_edge(tree[j]));
        assert(!tree[i].same_edge(tree[k]));
        assert(!tree[j].same_edge(tree[k]));
        assert(a != b && a != c && b != c);
        lemma_fixed_edge_is_on_tour(dimension, states, tree[i], order, node);
        lemma_fixed_edge_is_on_tour(dimension, states, tree[j], order, node);
        lemma_fixed_edge_is_on_tour(dimension, states, tree[k], order, node);
        assert(lists(order, node));
        lemma_no_third_neighbour(order, node, a, b, c);
    }
}

/// A `Fixed` edge at a node is on every tour that the edge states admit.
pub proof fn lemma_fixed_edge_is_on_tour(
    dimension: int,
    states: Seq<EdgeState>,
    edge: UnEdge,
    order: Seq<int>,
    node: int,
)
    requires
        is_symmetric_matrix(dimension, states),
        edge.from.0 < dimension,
        edge.to.0 < dimension,
        edge.from.0 != edge.to.0,
        state_at(dimension, states, edge.from.0 as int, edge.to.0 as int) == EdgeState::Fixed,
        is_admitted_tour(dimension, states, order),
        edge.touches(node),
    ensures
        on_tour(order, node, other_end(edge, node)),
{
    let u = edge.from.0 as int;
    let v = edge.to.0 as int;
    assert(on_tour(order, u, v));
    lemma_on_tour_is_unordered(order, u, v);
}

/// Where all edges of a 1-tree are `Fixed` and the edge states admit a
/// tour, every node has degree 2 in the 1-tree.
pub proof fn lemma_fixed_one_tree_is_a_tour(
    dimension: int,
    states: Seq<EdgeState>,
    tree: Seq<UnEdge>,
    order: Seq<int>,
)
    requires
        dimension >= 1,
        is_symmetric_matrix(dimension, states),
        is_admitted_one_tree(dimension, states, tree),
        forall|i: int|
            0 <= i < tree.len() ==> state_at(
                dimension,
                states,
                (#[trigger] tree[i]).from.0 as int,
                tree[i].to.0 as int,
            ) == EdgeState::Fixed,
        is_admitted_tour(dimension, states, order),
    ensures
        all_of_degree_two(tree, dimension),
{
    assert forall|node: int| 0 <= node < dimension implies degree(tree, node) <= 2 by {
        lemma_fixed_degree_is_small(dimension, states, tree, order, node);
    }
    lemma_total_degree(tree, dimension);
    lemma_degrees_are_two(tree, dimension);
}

/// Where all edges of a 1-tree are `Fixed`, and not every node has degree 2
/// in it, the edge states admit no tour.
pub proof fn lemma_fixed_one_tree_admits_no_tour(
    dimension: int,
    states: Seq<EdgeState>,
    tree: Seq<UnEdge>,
)
    requires
        dimension >= 1,
        is_symmetric_matrix(dimension, states),
        is_admitted_one_tree(dimension, states, tree),
        forall|i: int|
            0 <= i < tree.len() ==> state_at(
                dimension,
                states,
                (#[trigger] tree[i]).from.0 as int,
                tree[i].to.0 as int,
            ) == EdgeState::Fixed,
        !all_of_degree_two(tree, dimension),
    ensures
        admits_no_tour(dimension, states),
{
    reveal(admits_no_tour);
    assert forall|order: Seq<int>| !#[trigger] is_admitted_tour(dimension, states, order) by {
        if is_admitted_tour(dimension, states, order) {
            lemma_fixed_one_tree_is_a_tour(dimension, states, tree, order);
        }
    }
}

/// Excluding an edge that is not `Fixed` leaves the count of `Fixed` edges
/// at every node as it is.
pub proof fn lemma_degrees_after_excluding(
    dimension: int,
    states: Seq<EdgeState>,
    edge: UnEdge,
    fixed: Seq<u32>,
)
    requires
        states.len() == dimension * dimension,
        edge.from.0 < dimension,
        edge.to.0 < dimension,
        edge.from.0 != edge.to.0,
        state_at(dimension, states, edge.from.0 as int, edge.to.0 as int) != EdgeState::Fixed,
        state_at(dimension, states, edge.to.0 as int, edge.from.0 as int) != EdgeState::Fixed,
        degrees_counted(dimension, states, fixed),
    ensures
        degrees_counted(
            dimension,
            with_state(dimension, states, edge, EdgeState::Excluded),
            fixed,
        ),
{
    reveal(degrees_counted);
    assert forall|v: int| 0 <= v < dimension implies #[trigger] fixed[v] == fixed_count(
        dimension,
        with_state(dimension, states, edge, EdgeState::Excluded),
        v,
        dimension,
    ) by {
        lemma_count_after_deciding(dimension, states, edge, EdgeState::Excluded, v, dimension);
    }
}

/// Fixing an edge that is not `Fixed` adds one to the count of `Fixed`
/// edges at both of its ends.
pub proof fn lemma_degrees_after_fixing(
    dimension: int,
    states: Seq<EdgeState>,
    edge: UnEdge,
    fixed: Seq<u32>,
)
    requires
        states.len() == dimension * dimension,
        edge.from.0 < dimension,
        edge.to.0 < dimension,
        edge.from.0 != edge.to.0,
        state_at(dimension, states, edge.from.0 as int, edge.to.0 as int) != EdgeState::Fixed,
        state_at(dimension, states, edge.to.0 as int, edge.from.0 as int) != EdgeState::Fixed,
        degrees_counted(dimension, states, fixed),
        fixed[edge.from.0 as int] < 2,
        fixed[edge.to.0 as int] < 2,
    ensures
        degrees_counted(
            dimension,
            with_state(dimension, states, edge, EdgeState::Fixed),
            with_fixed_edge(fixed, edge),
        ),
{
    reveal(degrees_counted);
    let after = with_fixed_edge(fixed, edge);
    assert forall|v: int| 0 <= v < dimension implies #[trigger] after[v] == fixed_count(
        dimension,
        with_state(dimension, states, edge, EdgeState::Fixed),
        v,
        dimension,
    ) by {
        lemma_count_after_deciding(dimension, states, edge, EdgeState::Fixed, v, dimension);
        assert(fixed[v] == fixed_count(dimension, states, v, dimension));
    }
}

/// A node that counts two `Fixed` edges or more leaves no tour that uses
/// the edge: what bounds the tours without the edge bounds all tours.
pub proof fn lemma_full_node_closes_branch(
    dimension: int,
    distances: Seq<Distance>,
    states: Seq<EdgeState>,
    edge: UnEdge,
    fixed: Seq<u32>,
    without: int,
)
    requires
        dimension >= 1,
        states.len() == dimension * dimension,
        edge.from.0 < dimension,
        edge.to.0 < dimension,
        state_at(dimension, states, edge.from.0 as int, edge.to.0 as int) != EdgeState::Fixed,
        state_at(dimension, states, edge.to.0 as int, edge.from.0 as int) != EdgeState::Fixed,
        degrees_counted(dimension, states, fixed),
        fixed[edge.from.0 as int] >= 2 || fixed[edge.to.0 as int] >= 2,
        bounds_admitted_tours(
            dimension,
            distances,
            with_state(dimension, states, edge, EdgeState::Excluded),
            without,
        ),
    ensures
        bounds_admitted_tours(dimension, distances, states, without),
{
    reveal(degrees_counted);
    let from = edge.from.0 as int;
    let to = edge.to.0 as int;
    assert forall|order: Seq<int>| #[trigger]
        is_admitted_tour(dimension, states, order) implies !on_tour(order, from, to) by {
        if fixed[from] >= 2 {
            assert(fixed[from] == fixed_count(dimension, states, from, dimension));
            lemma_no_room(dimension, states, from, to, order);
        } else {
            assert(fixed[to] == fixed_count(dimension, states, to, dimension));
            lemma_no_room(dimension, states, to, from, order);
            if on_tour(order, from, to) {
                lemma_on_tour_is_unordered(order, from, to);
            }
        }
    }
    lemma_one_branch(dimension, distances, states, edge, without);
}

/// A 1-tree without an `Available` edge, in which not every node has
/// degree 2, closes the node: the edge states admit no tour.
pub proof fn lemma_nothing_to_branch_on(
    dimension: int,
    distances: Seq<Distance>,
    states: Seq<EdgeState>,
    tree: Seq<UnEdge>,
    bound: int,
)
    requires
        dimension >= 1,
        states.len() == dimension * dimension,
        is_symmetric_matrix(dimension, states),
        is_admitted_one_tree(dimension, states, tree),
        forall|i: int|
            0 <= i < tree.len() ==> !can_branch_on(
                dimension,
                states,
                #[trigger] tree[i],
            ),
        !all_of_degree_two(tree, dimension),
    ensures
        bounds_admitted_tours(dimension, distances, states, bound),
{
    assert forall|i: int| 0 <= i < tree.len() implies state_at(
        dimension,
        states,
        (#[trigger] tree[i]).from.0 as int,
        tree[i].to.0 as int,
    ) == EdgeState::Fixed by {
        assert(!can_branch_on(dimension, states, tree[i]));
    }
    lemma_fixed_one_tree_admits_no_tour(dimension, states, tree);
    lemma_no_tour_to_bound(dimension, distances, states, bound);
}

/// Where no edge is `Fixed`, no node counts a `Fixed` edge.
pub proof fn lemma_nothing_fixed(dimension: int, states: Seq<EdgeState>, v: int, k: int)
    requires
        states.len() == dimension * dimension,
        0 <= v < dimension,
        0 <= k <= dimension,
        forall|i: int| 0 <= i < states.len() ==> #[trigger] states[i] != EdgeState::Fixed,
    ensures
        fixed_count(dimension, states, v, k) == 0,
    decreases k,
{
    if k > 0 {
        lemma_nothing_fixed(dimension, states, v, k - 1);
        lemma_cell_in_range(v, k - 1, dimension);
    }
}

/// Where no edge is `Fixed`, counts of zero count the `Fixed` edges.
pub proof fn lemma_no_degrees(dimension: int, states: Seq<EdgeState>, fixed: Seq<u32>)
    requires
        states.len() == dimension * dimension,
        fixed.len() == dimension,
        forall|i: int| 0 <= i < states.len() ==> #[trigger] states[i] != EdgeState::Fixed,
        forall|v: int| 0 <= v < fixed.len() ==> #[trigger] fixed[v] == 0,
    ensures
        degrees_counted(dimension, states, fixed),
{
    reveal(degrees_counted);
    assert forall|v: int| 0 <= v < dimension implies #[trigger] fixed[v] == fixed_count(
        dimension,
        states,
        v,
        dimension,
    ) by {
        lemma_nothing_fixed(dimension, states, v, dimension);
    }
}

} // verus!
