//! The minimum 1-tree bounds every tour from below.
//!
//! A tour that the edge states admit is two edges at node 0 and a path
//! through all other nodes. The two edges cost no less than the two that the
//! scan of node 0 finds, and the path costs no less than the spanning tree.

use crate::distance::Distance;
use crate::distance::ScaledDistance;
use crate::edge::UnEdge;
use crate::edge::degree;
use crate::held_karp::bound_laws::scaled_is_exact;
use crate::held_karp::edge_state::EdgeState;
use crate::held_karp::feasibility::lemma_spanning_tree_exists;
use crate::held_karp::lower_bound::lagrangian_value;
use crate::held_karp::lower_bound::reduced_cost;
use crate::held_karp::lower_bound::spec_bound_of;
use crate::held_karp::lower_bound::sum_of_squares;
use crate::held_karp::optimality::connected;
use crate::held_karp::optimality::crosses;
use crate::held_karp::optimality::feasible;
use crate::held_karp::optimality::is_crossed;
use crate::held_karp::optimality::is_symmetric;
use crate::held_karp::optimality::lemma_spanning_tree_is_cheapest;
use crate::held_karp::optimality::splits;
use crate::held_karp::optimality::tree_cost;
use crate::held_karp::tours::lemma_links_are_different;
use crate::held_karp::tree_laws::grows_from;
use crate::held_karp::tree_laws::has_edge;
use crate::held_karp::tree_laws::is_fixed;
use crate::held_karp::tree_laws::lemma_spanning_tree_holds_fixed_edges;
use crate::held_karp::tree_laws::lemma_spanning_tree_is_grown;
use crate::held_karp::tree_laws::lists;
use crate::held_karp::tree_laws::next_on_cycle;
use crate::held_karp::tree_laws::reaches;
use crate::held_karp::trees::FORCED;
use crate::held_karp::trees::OneTreeProblem;
use crate::held_karp::trees::TwoCheapest;
use crate::held_karp::trees::UNREACHED;
use crate::held_karp::trees::add_link;
use crate::held_karp::trees::links_below;
use crate::held_karp::trees::no_links;
use crate::held_karp::trees::one_tree;
use crate::held_karp::trees::spanning_tree;
use crate::matrix::lemma_cell_in_range;
use crate::node::Node;
use vstd::prelude::*;

verus! {

/// A reduced distance at node 0 is far from the two costs that stand for no
/// edge and for a forced edge.
pub proof fn lemma_link_is_finite(p: OneTreeProblem, to: int)
    ensures
        FORCED < p.reduced(0, to) < UNREACHED,
{
    let distance = p.distances[0 * p.dimension + to];
    let a = p.penalties[0];
    let b = p.penalties[to];
    assert(i32::MIN <= distance.0 <= i32::MAX);
    assert(i32::MIN <= a.0 <= i32::MAX);
    assert(i32::MIN <= b.0 <= i32::MAX);
}

/// Whether `cost` is the cost that the scan keeps for the edge from node 0
/// to `node`: the forced cost for a `Fixed` edge, the reduced distance for
/// an `Available` one.
pub open spec fn is_link_cost(p: OneTreeProblem, node: int, cost: int) -> bool {
    match p.state(0, node) {
        EdgeState::Excluded => false,
        EdgeState::Available => cost == p.reduced(0, node),
        EdgeState::Fixed => cost == FORCED,
    }
}

/// What the scan of node 0 has found among the nodes `1..k`: the two
/// cheapest of the edges that are not `Excluded`, `Fixed` edges first.
pub open spec fn holds_two_cheapest(p: OneTreeProblem, found: TwoCheapest, k: int) -> bool {
    &&& FORCED <= found.cost_a <= found.cost_b <= UNREACHED
    &&& match found.node_a {
        Some(a) => 1 <= a < k && is_link_cost(p, a, found.cost_a),
        None => found.cost_a == UNREACHED && found.node_b is None && forall|w: int|
            1 <= w < k ==> #[trigger] p.state(0, w) == EdgeState::Excluded,
    }
    &&& match found.node_b {
        Some(b) => 1 <= b < k && is_link_cost(p, b, found.cost_b) && found.node_a != Some(b),
        None => found.cost_b == UNREACHED && forall|w: int|
            1 <= w < k && found.node_a != Some(w) ==> #[trigger] p.state(0, w)
                == EdgeState::Excluded,
    }
    &&& forall|w: int|
        1 <= w < k && found.node_a != Some(w) && found.node_b != Some(w) && #[trigger] p.state(0, w)
            != EdgeState::Excluded ==> p.state(0, w) == EdgeState::Available && found.cost_b
            <= p.reduced(0, w)
}

/// The scan of node 0 holds the two cheapest edges among the nodes it has
/// looked at.
pub proof fn lemma_scan_holds_two_cheapest(p: OneTreeProblem, k: int)
    requires
        links_below(p, k) is Some,
    ensures
        holds_two_cheapest(p, links_below(p, k)->0, k),
    decreases k,
{
    if k > 1 {
        lemma_scan_holds_two_cheapest(p, k - 1);
        let before = links_below(p, k - 1)->0;
        let found = links_below(p, k)->0;
        let v = k - 1;
        lemma_link_is_finite(p, v);
        assert(found == add_link(p, before, v)->0);
        assert forall|w: int|
            1 <= w < k && found.node_a != Some(w) && found.node_b != Some(w) && #[trigger] p.state(
                0,
                w,
            ) != EdgeState::Excluded implies p.state(0, w) == EdgeState::Available && found.cost_b
            <= p.reduced(0, w) by {
            lemma_link_is_finite(p, w);
            if w < v {
                if before.node_a == Some(w) || before.node_b == Some(w) {
                } else {
                    assert(p.state(0, w) == EdgeState::Available && before.cost_b <= p.reduced(
                        0,
                        w,
                    ));
                }
            }
        }
    }
}

/// The two edges at node 0 that the scan finds cost no more than any two
/// edges at node 0 that the edge states admit together.
pub proof fn lemma_links_are_cheapest(p: OneTreeProblem, x: int, y: int)
    requires
        links_below(p, p.dimension) matches Some(found) && found.node_a is Some && found.node_b
            is Some,
        1 <= x < p.dimension,
        1 <= y < p.dimension,
        x != y,
        p.state(0, x) != EdgeState::Excluded,
        p.state(0, y) != EdgeState::Excluded,
        forall|w: int|
            1 <= w < p.dimension && #[trigger] p.state(0, w) == EdgeState::Fixed ==> w == x || w
                == y,
    ensures
        ({
            let found = links_below(p, p.dimension)->0;
            p.reduced(0, found.node_a->0) + p.reduced(0, found.node_b->0) <= p.reduced(0, x)
                + p.reduced(0, y)
        }),
{
    lemma_scan_holds_two_cheapest(p, p.dimension);
    let found = links_below(p, p.dimension)->0;
    let a = found.node_a->0;
    let b = found.node_b->0;
    lemma_link_is_finite(p, a);
    lemma_link_is_finite(p, b);
    lemma_link_is_finite(p, x);
    lemma_link_is_finite(p, y);
    if p.state(0, b) == EdgeState::Fixed {
        assert(p.state(0, a) == EdgeState::Fixed);
    } else if p.state(0, a) == EdgeState::Fixed {
        if x != a && x != b {
            assert(p.state(0, x) == EdgeState::Available);
        }
        if y != a && y != b {
            assert(p.state(0, y) == EdgeState::Available);
        }
    } else {
        if x != a && x != b {
            assert(p.state(0, x) == EdgeState::Available);
        }
        if y != a && y != b {
            assert(p.state(0, y) == EdgeState::Available);
        }
    }
}

/// Whether distances and states are the same in both directions.
pub open spec fn is_symmetric_instance(p: OneTreeProblem) -> bool {
    &&& forall|u: int, v: int|
        0 <= u < p.dimension && 0 <= v < p.dimension ==> #[trigger] p.state(u, v) == p.state(v, u)
    &&& forall|u: int, v: int|
        0 <= u < p.dimension && 0 <= v < p.dimension ==> #[trigger] p.reduced(u, v) == p.reduced(
            v,
            u,
        )
}

/// Whether the tour through `order` goes from `u` to `v` or from `v` to
/// `u`.
pub open spec fn on_tour(order: Seq<int>, u: int, v: int) -> bool {
    exists|i: int|
        0 <= i < order.len() && (#[trigger] order[i] == u && order[next_on_cycle(
            i,
            order.len() as int,
        )] == v || order[i] == v && order[next_on_cycle(i, order.len() as int)] == u)
}

/// The state of the edge from `u` to `v` in a matrix of states over
/// `dimension` nodes.
pub open spec fn state_at(dimension: int, states: Seq<EdgeState>, u: int, v: int) -> EdgeState {
    states[u * dimension + v]
}

/// Whether `order` is a tour from node 0 through every node that the edge
/// states admit: it uses no `Excluded` edge and every `Fixed` edge.
pub open spec fn is_admitted_tour(dimension: int, states: Seq<EdgeState>, order: Seq<int>) -> bool {
    &&& order.len() == dimension
    &&& order[0] == 0
    &&& forall|i: int| 0 <= i < order.len() ==> 0 <= #[trigger] order[i] < dimension
    &&& forall|i: int, j: int| 0 <= i < j < order.len() ==> order[i] != order[j]
    &&& forall|v: int| 0 <= v < dimension ==> #[trigger] lists(order, v)
    &&& forall|i: int|
        0 <= i < order.len() ==> #[trigger] takes_admitted_edge(dimension, states, order, i)
    &&& forall|u: int, v: int|
        0 <= u < dimension && 0 <= v < dimension && u != v && #[trigger] state_at(
            dimension,
            states,
            u,
            v,
        ) == EdgeState::Fixed ==> on_tour(order, u, v)
}

/// Whether the edge from the node at place `i` of `order` to the node at
/// the next place is not `Excluded`.
pub open spec fn takes_admitted_edge(
    dimension: int,
    states: Seq<EdgeState>,
    order: Seq<int>,
    i: int,
) -> bool {
    state_at(dimension, states, order[i], order[next_on_cycle(i, order.len() as int)])
        != EdgeState::Excluded
}

/// The sum of the reduced distances of the first `k` edges of the tour
/// through `order`.
pub open spec fn tour_reduced_cost(p: OneTreeProblem, order: Seq<int>, k: int) -> int
    decreases k,
{
    if k <= 0 {
        0
    } else {
        tour_reduced_cost(p, order, k - 1) + p.reduced(
            order[k - 1],
            order[next_on_cycle(k - 1, order.len() as int)],
        )
    }
}

/// States and reduced distances between nodes other than node 0 are the
/// same in the problem without node 0.
pub proof fn lemma_without_node_zero(p: OneTreeProblem, u: int, v: int)
    requires
        p.wf(),
        1 <= u < p.dimension,
        0 <= v < p.dimension,
    ensures
        p.without_node_zero().state(u, v) == p.state(u, v),
        p.without_node_zero().reduced(u, v) == p.reduced(u, v),
        p.without_node_zero().wf(),
{
    let n = p.dimension;
    assert((u - 1) * n + n == u * n) by (nonlinear_arith);
    assert(0 <= (u - 1) * n && u * n + n <= n * n) by (nonlinear_arith)
        requires
            1 <= u < n,
    ;
    assert((n - 1) * n == n * n - n) by (nonlinear_arith);
}

/// Where the two ends of a stretch of the tour lie on different sides, two
/// neighbours on the stretch do.
pub proof fn lemma_sides_change(order: Seq<int>, side: Seq<bool>, low: int, high: int) -> (at: int)
    requires
        low < high,
        side[order[low]] != side[order[high]],
    ensures
        low <= at < high,
        side[order[at]] != side[order[at + 1]],
    decreases high - low,
{
    if side[order[low]] != side[order[low + 1]] {
        low
    } else {
        lemma_sides_change(order, side, low + 1, high)
    }
}

/// The edges of the tour through `order` between nodes other than node 0:
/// the path from the node after node 0 to the node before it.
pub open spec fn path_of(order: Seq<int>) -> Seq<UnEdge> {
    Seq::new(
        (order.len() - 2) as nat,
        |i: int| UnEdge { from: Node(order[i + 1] as usize), to: Node(order[i + 2] as usize) },
    )
}

/// The path of an admitted tour connects all nodes but node 0 and is
/// admitted by the edge states.
#[verifier::rlimit(60)]
pub proof fn lemma_path_is_a_competitor(p: OneTreeProblem, order: Seq<int>)
    requires
        p.wf(),
        p.dimension >= 3,
        is_symmetric_instance(p),
        is_admitted_tour(p.dimension, p.states, order),
    ensures
        connected(p.without_node_zero(), path_of(order)),
        feasible(p.without_node_zero(), path_of(order)),
        path_of(order).len() == p.dimension - 2,
{
    let n = p.dimension;
    let sub = p.without_node_zero();
    let path = path_of(order);
    assert forall|i: int| 1 <= i < n implies 1 <= #[trigger] order[i] < n by {
        assert(order[0] != order[i]);
    }
    assert forall|i: int| 0 <= i < path.len() implies sub.first <= (#[trigger] path[i]).from.0
        < sub.dimension && sub.first <= path[i].to.0 < sub.dimension && sub.state(
        path[i].from.0 as int,
        path[i].to.0 as int,
    ) != EdgeState::Excluded by {
        assert(1 <= order[i + 1] < n);
        assert(1 <= order[i + 2] < n);
        lemma_without_node_zero(p, order[i + 1], order[i + 2]);
        assert(next_on_cycle(i + 1, n) == i + 2);
        assert(takes_admitted_edge(n, p.states, order, i + 1));
    }
    assert forall|u: int, v: int|
        sub.first <= u < sub.dimension && sub.first <= v < sub.dimension && u != v
            && #[trigger] is_fixed(sub, u, v) implies has_edge(path, u, v) by {
        lemma_without_node_zero(p, u, v);
        assert(p.state(u, v) == EdgeState::Fixed);
        assert(state_at(n, p.states, u, v) == EdgeState::Fixed);
        assert(on_tour(order, u, v));
        let i = choose|i: int|
            0 <= i < order.len() && (#[trigger] order[i] == u && order[next_on_cycle(
                i,
                order.len() as int,
            )] == v || order[i] == v && order[next_on_cycle(i, order.len() as int)] == u);
        assert(i != 0);
        assert(i != n - 1);
        assert(next_on_cycle(i, n) == i + 1);
        assert(path[i - 1].from.0 == order[i] && path[i - 1].to.0 == order[i + 1]);
    }
    assert forall|side: Seq<bool>| #[trigger] splits(sub, side) implies is_crossed(path, side) by {
        let x = choose|x: int| sub.first <= x < sub.dimension && #[trigger] side[x];
        let y = choose|y: int| sub.first <= y < sub.dimension && !#[trigger] side[y];
        assert(lists(order, x));
        assert(lists(order, y));
        let ix = choose|i: int| 0 <= i < order.len() && #[trigger] order[i] == x;
        let iy = choose|i: int| 0 <= i < order.len() && #[trigger] order[i] == y;
        assert(ix >= 1 && iy >= 1);
        let at = if ix < iy {
            lemma_sides_change(order, side, ix, iy)
        } else {
            lemma_sides_change(order, side, iy, ix)
        };
        assert(1 <= at < n - 1);
        assert(path[at - 1].from.0 == order[at] && path[at - 1].to.0 == order[at + 1]);
        assert(crosses(path[at - 1], side));
    }
}

/// The cost of the first edges of the path of a tour, together with the
/// edge from node 0, is the cost of the first edges of the tour.
pub proof fn lemma_cost_of_path(p: OneTreeProblem, order: Seq<int>, k: int)
    requires
        p.wf(),
        p.dimension >= 3,
        is_admitted_tour(p.dimension, p.states, order),
        0 <= k <= p.dimension - 2,
    ensures
        tour_reduced_cost(p, order, k + 1) == p.reduced(0, order[1]) + tree_cost(
            p.without_node_zero(),
            path_of(order).take(k),
        ),
    decreases k,
{
    let n = p.dimension;
    let path = path_of(order);
    if k == 0 {
        assert(tour_reduced_cost(p, order, 0) == 0);
        assert(next_on_cycle(0, n) == 1);
        assert(path.take(0).len() == 0);
    } else {
        lemma_cost_of_path(p, order, k - 1);
        assert(path.take(k).drop_last() =~= path.take(k - 1));
        assert(path.take(k).last() == path[k - 1]);
        assert(next_on_cycle(k, n) == k + 1);
        assert(order[0] != order[k]);
        assert(order[0] != order[k + 1]);
        lemma_without_node_zero(p, order[k], order[k + 1]);
    }
}

/// The reduced cost of edges between nodes other than node 0 is the same in
/// the problem without node 0.
pub proof fn lemma_cost_without_node_zero(p: OneTreeProblem, edges: Seq<UnEdge>)
    requires
        p.wf(),
        forall|i: int|
            0 <= i < edges.len() ==> 1 <= (#[trigger] edges[i]).from.0 < p.dimension && 0
                <= edges[i].to.0 < p.dimension,
    ensures
        reduced_cost(p.dimension, p.distances, p.penalties, edges) == tree_cost(
            p.without_node_zero(),
            edges,
        ),
    decreases edges.len(),
{
    if edges.len() > 0 {
        let prefix = edges.drop_last();
        assert forall|i: int| 0 <= i < prefix.len() implies 1 <= (#[trigger] prefix[i]).from.0
            < p.dimension && 0 <= prefix[i].to.0 < p.dimension by {
            assert(prefix[i] == edges[i]);
        }
        lemma_cost_without_node_zero(p, prefix);
        let last = edges.last();
        assert(last == edges[edges.len() - 1]);
        lemma_without_node_zero(p, last.from.0 as int, last.to.0 as int);
    }
}

/// The minimum 1-tree costs no more, in reduced distances, than any tour
/// that the edge states admit.
#[verifier::rlimit(60)]
pub proof fn lemma_one_tree_is_cheapest(p: OneTreeProblem, order: Seq<int>)
    requires
        p.wf(),
        p.dimension >= 3,
        is_symmetric_instance(p),
        one_tree(p) is Some,
        is_admitted_tour(p.dimension, p.states, order),
    ensures
        reduced_cost(p.dimension, p.distances, p.penalties, one_tree(p)->0) <= tour_reduced_cost(
            p,
            order,
            p.dimension,
        ),
{
    let n = p.dimension;
    let sub = p.without_node_zero();
    let tree = spanning_tree(sub)->0;
    let found = links_below(p, n)->0;
    let a = found.node_a->0;
    let b = found.node_b->0;
    let to_a = UnEdge { from: Node(0), to: Node(a as usize) };
    let to_b = UnEdge { from: Node(0), to: Node(b as usize) };
    let with_a = tree.push(to_a);
    let whole = with_a.push(to_b);
    assert(one_tree(p)->0 == whole);
    lemma_links_are_different(p, n);
    lemma_without_node_zero(p, 1, 0);
    lemma_spanning_tree_is_grown(sub);
    // The cost of the 1-tree in its parts.
    assert(whole.drop_last() =~= with_a);
    assert(with_a.drop_last() =~= tree);
    assert(whole.last() == to_b);
    assert(with_a.last() == to_a);
    assert(reduced_cost(n, p.distances, p.penalties, with_a) == reduced_cost(
        n,
        p.distances,
        p.penalties,
        tree,
    ) + p.reduced(0, a));
    assert(reduced_cost(n, p.distances, p.penalties, whole) == reduced_cost(
        n,
        p.distances,
        p.penalties,
        with_a,
    ) + p.reduced(0, b));
    lemma_cost_without_node_zero(p, tree);
    // The spanning tree against the path of the tour.
    assert forall|u: int, v: int|
        sub.first <= u < sub.dimension && sub.first <= v < sub.dimension
        implies #[trigger] sub.state(u, v) == sub.state(v, u) by {
        lemma_without_node_zero(p, u, v);
        lemma_without_node_zero(p, v, u);
        assert(p.state(u, v) == p.state(v, u));
    }
    assert forall|u: int, v: int|
        sub.first <= u < sub.dimension && sub.first <= v < sub.dimension
        implies #[trigger] sub.reduced(u, v) == sub.reduced(v, u) by {
        lemma_without_node_zero(p, u, v);
        lemma_without_node_zero(p, v, u);
        assert(p.reduced(u, v) == p.reduced(v, u));
    }
    assert(is_symmetric(sub));
    lemma_path_is_a_competitor(p, order);
    lemma_spanning_tree_is_cheapest(sub, path_of(order));
    // The two edges at node 0 against those of the tour.
    let x = order[1];
    let y = order[n - 1];
    assert(order[0] != order[1]);
    assert(order[0] != order[n - 1]);
    assert(order[1] != order[n - 1]);
    assert(next_on_cycle(0, n) == 1);
    assert(next_on_cycle(n - 1, n) == 0);
    assert(takes_admitted_edge(n, p.states, order, 0));
    assert(takes_admitted_edge(n, p.states, order, n - 1));
    assert(p.state(0, y) == p.state(y, 0));
    assert forall|w: int| 1 <= w < n && #[trigger] p.state(0, w) == EdgeState::Fixed implies w == x
        || w == y by {
        assert(state_at(n, p.states, 0, w) == EdgeState::Fixed);
        assert(on_tour(order, 0, w));
        let i = choose|i: int|
            0 <= i < order.len() && (#[trigger] order[i] == 0 && order[next_on_cycle(
                i,
                order.len() as int,
            )] == w || order[i] == w && order[next_on_cycle(i, order.len() as int)] == 0);
        if order[i] == 0 {
            if i > 0 {
                assert(order[0] != order[i]);
            }
        } else {
            let j = next_on_cycle(i, n);
            if j > 0 {
                assert(order[0] != order[j]);
            }
        }
    }
    lemma_links_are_cheapest(p, x, y);
    // The cost of the tour in its parts.
    lemma_cost_of_path(p, order, n - 2);
    assert(path_of(order).take(n - 2) =~= path_of(order));
    assert(tour_reduced_cost(p, order, n) == tour_reduced_cost(p, order, n - 1) + p.reduced(
        order[n - 1],
        order[next_on_cycle(n - 1, n)],
    ));
    assert(p.reduced(y, 0) == p.reduced(0, y));
}

/// The sum of the scaled distances of the first `k` edges of the tour
/// through `order`.
pub open spec fn tour_scaled_cost(
    dimension: int,
    scaled_distances: Seq<ScaledDistance>,
    order: Seq<int>,
    k: int,
) -> int
    decreases k,
{
    if k <= 0 {
        0
    } else {
        tour_scaled_cost(dimension, scaled_distances, order, k - 1) + scaled_distances[order[k
            - 1] * dimension + order[next_on_cycle(k - 1, order.len() as int)]].0
    }
}

/// The sum of the distances of the first `k` edges of the tour through
/// `order`.
pub open spec fn tour_cost(
    dimension: int,
    distances: Seq<Distance>,
    order: Seq<int>,
    k: int,
) -> int
    decreases k,
{
    if k <= 0 {
        0
    } else {
        tour_cost(dimension, distances, order, k - 1) + distances[order[k - 1] * dimension
            + order[next_on_cycle(k - 1, order.len() as int)]].0
    }
}

/// Where the scaled distances are 32 times the distances, the scaled cost
/// of a tour is 32 times its cost, and its cost is not negative where no
/// distance is.
pub proof fn lemma_tour_cost_scales(
    dimension: int,
    distances: Seq<Distance>,
    scaled_distances: Seq<ScaledDistance>,
    order: Seq<int>,
    k: int,
)
    requires
        dimension >= 1,
        distances.len() == dimension * dimension,
        scaled_is_exact(distances, scaled_distances),
        order.len() == dimension,
        forall|i: int| 0 <= i < order.len() ==> 0 <= #[trigger] order[i] < dimension,
        0 <= k <= dimension,
    ensures
        tour_scaled_cost(dimension, scaled_distances, order, k) == 32 * tour_cost(
            dimension,
            distances,
            order,
            k,
        ),
        (forall|i: int| 0 <= i < distances.len() ==> 0 <= (#[trigger] distances[i]).0) ==> 0
            <= tour_cost(dimension, distances, order, k),
    decreases k,
{
    if k > 0 {
        lemma_tour_cost_scales(dimension, distances, scaled_distances, order, k - 1);
        let from = order[k - 1];
        let to = order[next_on_cycle(k - 1, dimension)];
        assert(0 <= to < dimension);
        lemma_cell_in_range(from, to, dimension);
    }
}

/// The sum of the penalties of the nodes `nodes`, each as often as it is
/// listed.
pub open spec fn penalties_along(penalties: Seq<ScaledDistance>, nodes: Seq<int>) -> int
    decreases nodes.len(),
{
    if nodes.len() == 0 {
        0
    } else {
        penalties_along(penalties, nodes.drop_last()) + penalties[nodes.last()].0
    }
}

/// Taking one node out of the list takes its penalty out of the sum.
pub proof fn lemma_penalties_without(penalties: Seq<ScaledDistance>, nodes: Seq<int>, j: int)
    requires
        0 <= j < nodes.len(),
    ensures
        penalties_along(penalties, nodes) == penalties_along(penalties, nodes.remove(j))
            + penalties[nodes[j]].0,
    decreases nodes.len(),
{
    if j == nodes.len() - 1 {
        assert(nodes.remove(j) =~= nodes.drop_last());
    } else {
        assert(nodes.remove(j).drop_last() =~= nodes.drop_last().remove(j));
        assert(nodes.remove(j).last() == nodes.last());
        lemma_penalties_without(penalties, nodes.drop_last(), j);
    }
}

/// The penalties along a list of all nodes, each listed once, add up to the
/// sum of all penalties.
pub proof fn lemma_penalties_along_all(penalties: Seq<ScaledDistance>, nodes: Seq<int>)
    requires
        nodes.len() == penalties.len(),
        forall|i: int| 0 <= i < nodes.len() ==> 0 <= #[trigger] nodes[i] < nodes.len(),
        forall|i: int, j: int| 0 <= i < j < nodes.len() ==> nodes[i] != nodes[j],
        forall|v: int| 0 <= v < nodes.len() ==> #[trigger] lists(nodes, v),
    ensures
        penalties_along(penalties, nodes) == ScaledDistance::spec_sum(penalties),
    decreases nodes.len(),
{
    if nodes.len() > 0 {
        let n = nodes.len() as int;
        assert(lists(nodes, n - 1));
        let j = choose|j: int| 0 <= j < nodes.len() && #[trigger] nodes[j] == n - 1;
        let rest = nodes.remove(j);
        let fewer = penalties.drop_last();
        lemma_penalties_without(penalties, nodes, j);
        assert forall|i: int| 0 <= i < rest.len() implies 0 <= #[trigger] rest[i] < rest.len() by {
            if i < j {
                assert(rest[i] == nodes[i]);
                assert(nodes[i] != nodes[j]);
            } else {
                assert(rest[i] == nodes[i + 1]);
                assert(nodes[j] != nodes[i + 1]);
            }
        }
        assert forall|a: int, b: int| 0 <= a < b < rest.len() implies rest[a] != rest[b] by {
            let a2 = if a < j {
                a
            } else {
                a + 1
            };
            let b2 = if b < j {
                b
            } else {
                b + 1
            };
            assert(rest[a] == nodes[a2] && rest[b] == nodes[b2]);
            assert(nodes[a2] != nodes[b2]);
        }
        assert forall|v: int| 0 <= v < rest.len() implies #[trigger] lists(rest, v) by {
            assert(lists(nodes, v));
            let i = choose|i: int| 0 <= i < nodes.len() && #[trigger] nodes[i] == v;
            if i < j {
                assert(rest[i] == v);
            } else {
                assert(rest[i - 1] == v);
            }
        }
        lemma_penalties_along_all(fewer, rest);
        lemma_same_penalties_below(penalties, fewer, rest);
    }
}

/// Penalties along nodes for which two lists of penalties agree add up to
/// the same.
pub proof fn lemma_same_penalties_below(
    penalties: Seq<ScaledDistance>,
    fewer: Seq<ScaledDistance>,
    nodes: Seq<int>,
)
    requires
        forall|i: int|
            0 <= i < nodes.len() ==> 0 <= #[trigger] nodes[i] < fewer.len() && fewer[nodes[i]]
                == penalties[nodes[i]],
    ensures
        penalties_along(penalties, nodes) == penalties_along(fewer, nodes),
    decreases nodes.len(),
{
    if nodes.len() > 0 {
        assert forall|i: int| 0 <= i < nodes.drop_last().len() implies 0
            <= #[trigger] nodes.drop_last()[i] < fewer.len() && fewer[nodes.drop_last()[i]]
            == penalties[nodes.drop_last()[i]] by {
            assert(nodes.drop_last()[i] == nodes[i]);
        }
        lemma_same_penalties_below(penalties, fewer, nodes.drop_last());
        assert(nodes.last() == nodes[nodes.len() - 1]);
    }
}

/// The scaled cost of the first `k` edges of a tour is their reduced cost
/// and the penalties of their ends.
pub proof fn lemma_tour_cost_splits(p: OneTreeProblem, order: Seq<int>, k: int)
    requires
        order.len() == p.dimension,
        p.dimension >= 1,
        0 <= k < order.len(),
    ensures
        tour_scaled_cost(p.dimension, p.distances, order, k) == tour_reduced_cost(p, order, k)
            + penalties_along(
            p.penalties,
            order.take(k),
        ) + penalties_along(p.penalties, order.take(k + 1)) - p.penalties[order[0]].0,
    decreases k,
{
    if k == 0 {
        assert(order.take(0).len() == 0);
        assert(order.take(1).drop_last() =~= order.take(0));
        assert(order.take(1).last() == order[0]);
    } else {
        lemma_tour_cost_splits(p, order, k - 1);
        assert(order.take(k).drop_last() =~= order.take(k - 1));
        assert(order.take(k).last() == order[k - 1]);
        assert(order.take(k + 1).drop_last() =~= order.take(k));
        assert(order.take(k + 1).last() == order[k]);
        assert(next_on_cycle(k - 1, order.len() as int) == k);
    }
}

/// The minimum 1-tree bounds every tour from below: its Lagrangian value
/// is at most the scaled cost of any tour that the edge states admit.
pub proof fn lemma_lagrangian_bound(p: OneTreeProblem, order: Seq<int>)
    requires
        p.wf(),
        p.dimension >= 3,
        is_symmetric_instance(p),
        one_tree(p) is Some,
        is_admitted_tour(p.dimension, p.states, order),
    ensures
        lagrangian_value(p.dimension, p.distances, p.penalties, one_tree(p)->0)
            <= tour_scaled_cost(p.dimension, p.distances, order, p.dimension),
{
    let n = p.dimension;
    lemma_one_tree_is_cheapest(p, order);
    lemma_tour_cost_splits(p, order, n - 1);
    assert(order.take(n) =~= order);
    assert(next_on_cycle(n - 1, n) == 0);
    assert(order.drop_last() =~= order.take(n - 1));
    assert(order.last() == order[n - 1]);
    lemma_penalties_along_all(p.penalties, order);
}

/// Where the penalties add up to nothing negative, the reduced cost of the
/// minimum 1-tree less twice their sum is at most the scaled cost of any
/// tour that the edge states admit.
pub proof fn lemma_reduced_cost_less_penalties(p: OneTreeProblem, order: Seq<int>)
    requires
        p.wf(),
        p.dimension >= 3,
        is_symmetric_instance(p),
        one_tree(p) is Some,
        is_admitted_tour(p.dimension, p.states, order),
        ScaledDistance::spec_sum(p.penalties) >= 0,
    ensures
        reduced_cost(p.dimension, p.distances, p.penalties, one_tree(p)->0) - 2
            * ScaledDistance::spec_sum(p.penalties) <= tour_scaled_cost(
            p.dimension,
            p.distances,
            order,
            p.dimension,
        ),
{
    lemma_lagrangian_bound(p, order);
}

/// The cell of `(u, v)` in a matrix over `dimension` nodes.
pub open spec fn cell_at<T>(dimension: int, cells: Seq<T>, u: int, v: int) -> T {
    cells[u * dimension + v]
}

/// Whether a matrix over `dimension` nodes holds the same value for
/// `(u, v)` and `(v, u)`.
pub open spec fn is_symmetric_matrix<T>(dimension: int, cells: Seq<T>) -> bool {
    forall|u: int, v: int|
        0 <= u < dimension && 0 <= v < dimension ==> #[trigger] cell_at(dimension, cells, u, v)
            == cell_at(dimension, cells, v, u)
}

/// Whether `bound` is at most the cost of every tour that the edge states
/// admit.
#[verifier::opaque]
pub open spec fn bounds_admitted_tours(
    dimension: int,
    distances: Seq<Distance>,
    states: Seq<EdgeState>,
    bound: int,
) -> bool {
    forall|order: Seq<int>| #[trigger]
        is_admitted_tour(dimension, states, order) ==> bound <= tour_cost(
            dimension,
            distances,
            order,
            dimension,
        )
}

/// Whether `value` is at most the scaled cost of every tour that the edge
/// states admit.
#[verifier::opaque]
pub open spec fn bounds_scaled_tours(
    dimension: int,
    scaled_distances: Seq<ScaledDistance>,
    states: Seq<EdgeState>,
    value: int,
) -> bool {
    forall|order: Seq<int>| #[trigger]
        is_admitted_tour(dimension, states, order) ==> value <= tour_scaled_cost(
            dimension,
            scaled_distances,
            order,
            dimension,
        )
}

/// A value that is not positive bounds the scaled cost of every tour where
/// no distance is negative.
pub proof fn lemma_nothing_bounds_tours(
    dimension: int,
    distances: Seq<Distance>,
    scaled_distances: Seq<ScaledDistance>,
    states: Seq<EdgeState>,
    value: int,
)
    requires
        dimension >= 1,
        value <= 0,
        distances.len() == dimension * dimension,
        scaled_is_exact(distances, scaled_distances),
        forall|i: int| 0 <= i < distances.len() ==> 0 <= (#[trigger] distances[i]).0,
    ensures
        bounds_scaled_tours(dimension, scaled_distances, states, value),
{
    reveal(bounds_scaled_tours);
    assert forall|order: Seq<int>| #[trigger]
        is_admitted_tour(dimension, states, order) implies value <= tour_scaled_cost(
        dimension,
        scaled_distances,
        order,
        dimension,
    ) by {
        lemma_tour_cost_scales(dimension, distances, scaled_distances, order, dimension);
    }
}

/// The Lagrangian value of the minimum 1-tree bounds the scaled cost of
/// every tour that the edge states admit, whatever the penalties.
pub proof fn lemma_value_bounds_tours(p: OneTreeProblem)
    requires
        p.wf(),
        p.dimension >= 3,
        is_symmetric_matrix(p.dimension, p.distances),
        is_symmetric_matrix(p.dimension, p.states),
        one_tree(p) is Some,
    ensures
        bounds_scaled_tours(
            p.dimension,
            p.distances,
            p.states,
            lagrangian_value(p.dimension, p.distances, p.penalties, one_tree(p)->0),
        ),
{
    reveal(bounds_scaled_tours);
    assert forall|u: int, v: int|
        0 <= u < p.dimension && 0 <= v < p.dimension implies #[trigger] p.state(u, v) == p.state(
        v,
        u,
    ) by {
        assert(cell_at(p.dimension, p.states, u, v) == cell_at(p.dimension, p.states, v, u));
    }
    assert forall|u: int, v: int|
        0 <= u < p.dimension && 0 <= v < p.dimension implies #[trigger] p.reduced(u, v)
        == p.reduced(v, u) by {
        assert(cell_at(p.dimension, p.distances, u, v) == cell_at(
            p.dimension,
            p.distances,
            v,
            u,
        ));
    }
    assert forall|order: Seq<int>| #[trigger]
        is_admitted_tour(p.dimension, p.states, order) implies lagrangian_value(
        p.dimension,
        p.distances,
        p.penalties,
        one_tree(p)->0,
    ) <= tour_scaled_cost(p.dimension, p.distances, order, p.dimension) by {
        lemma_lagrangian_bound(p, order);
    }
}

/// The larger of two values that bound the scaled cost of every tour
/// bounds it too.
pub proof fn lemma_best_bounds_tours(
    dimension: int,
    scaled_distances: Seq<ScaledDistance>,
    states: Seq<EdgeState>,
    a: int,
    b: int,
)
    requires
        bounds_scaled_tours(dimension, scaled_distances, states, a),
        bounds_scaled_tours(dimension, scaled_distances, states, b),
    ensures
        bounds_scaled_tours(dimension, scaled_distances, states, if a > b {
            a
        } else {
            b
        }),
{
}

/// A value that bounds the scaled cost of every tour gives, divided by 32
/// and rounded up, a bound on the cost of every tour.
pub proof fn lemma_rounded_bound(
    dimension: int,
    distances: Seq<Distance>,
    scaled_distances: Seq<ScaledDistance>,
    states: Seq<EdgeState>,
    value: int,
)
    requires
        dimension >= 1,
        distances.len() == dimension * dimension,
        scaled_is_exact(distances, scaled_distances),
        forall|i: int| 0 <= i < distances.len() ==> 0 <= (#[trigger] distances[i]).0,
        bounds_scaled_tours(dimension, scaled_distances, states, value),
    ensures
        bounds_admitted_tours(
            dimension,
            distances,
            states,
            spec_bound_of(value),
        ),
{
    reveal(bounds_scaled_tours);
    reveal(bounds_admitted_tours);
    assert forall|order: Seq<int>| #[trigger]
        is_admitted_tour(dimension, states, order) implies spec_bound_of(
        value,
    ) <= tour_cost(dimension, distances, order, dimension) by {
        lemma_tour_cost_scales(dimension, distances, scaled_distances, order, dimension);
    }
}

/// A cost whose 32-fold bounds the scaled cost of every tour bounds the
/// cost of every tour.
pub proof fn lemma_cost_bounds_tours(
    dimension: int,
    distances: Seq<Distance>,
    scaled_distances: Seq<ScaledDistance>,
    states: Seq<EdgeState>,
    cost: int,
)
    requires
        dimension >= 1,
        distances.len() == dimension * dimension,
        scaled_is_exact(distances, scaled_distances),
        bounds_scaled_tours(dimension, scaled_distances, states, 32 * cost),
    ensures
        bounds_admitted_tours(dimension, distances, states, cost),
{
    reveal(bounds_scaled_tours);
    reveal(bounds_admitted_tours);
    assert forall|order: Seq<int>| #[trigger]
        is_admitted_tour(dimension, states, order) implies cost <= tour_cost(
        dimension,
        distances,
        order,
        dimension,
    ) by {
        lemma_tour_cost_scales(dimension, distances, scaled_distances, order, dimension);
    }
}

/// Whether every node below `dimension` has degree 2 in `edges`.
pub open spec fn all_of_degree_two(edges: Seq<UnEdge>, dimension: int) -> bool {
    forall|node: int| 0 <= node < dimension ==> degree(edges, node) == 2
}

/// Where every value is zero, the sum of squares is zero.
pub proof fn lemma_no_values_no_squares(values: Seq<int>)
    requires
        forall|i: int| 0 <= i < values.len() ==> #[trigger] values[i] == 0,
    ensures
        sum_of_squares(values) == 0,
    decreases values.len(),
{
    if values.len() > 0 {
        assert forall|i: int|
            0 <= i < values.drop_last().len() implies #[trigger] values.drop_last()[i] == 0 by {
            assert(values.drop_last()[i] == values[i]);
        }
        lemma_no_values_no_squares(values.drop_last());
        assert(values.last() == values[values.len() - 1]);
    }
}

/// Where the edge states admit a tour, the scan of node 0 finds two edges.
pub proof fn lemma_tour_forces_links(p: OneTreeProblem, order: Seq<int>, k: int)
    requires
        p.wf(),
        p.dimension >= 3,
        is_symmetric_matrix(p.dimension, p.states),
        is_admitted_tour(p.dimension, p.states, order),
        1 <= k <= p.dimension,
    ensures
        links_below(p, k) is Some,
    decreases k,
{
    let n = p.dimension;
    if k > 1 {
        lemma_tour_forces_links(p, order, k - 1);
        lemma_scan_holds_two_cheapest(p, k - 1);
        let before = links_below(p, k - 1)->0;
        let v = k - 1;
        if add_link(p, before, v) is None {
            let a = before.node_a->0;
            let b = before.node_b->0;
            lemma_link_is_finite(p, a);
            lemma_link_is_finite(p, b);
            assert(p.state(0, a) == EdgeState::Fixed);
            assert(p.state(0, b) == EdgeState::Fixed);
            assert(p.state(0, v) == EdgeState::Fixed);
            lemma_two_edges_at_node_zero(p, order, a);
            lemma_two_edges_at_node_zero(p, order, b);
            lemma_two_edges_at_node_zero(p, order, v);
            assert(false);
        }
    }
}

/// A `Fixed` edge at node 0 leads to one of the two neighbours of node 0 on
/// an admitted tour.
pub proof fn lemma_two_edges_at_node_zero(p: OneTreeProblem, order: Seq<int>, w: int)
    requires
        p.dimension >= 3,
        is_admitted_tour(p.dimension, p.states, order),
        1 <= w < p.dimension,
        p.state(0, w) == EdgeState::Fixed,
    ensures
        w == order[1] || w == order[p.dimension - 1],
{
    let n = p.dimension;
    assert(state_at(n, p.states, 0, w) == EdgeState::Fixed);
    assert(on_tour(order, 0, w));
    let i = choose|i: int|
        0 <= i < order.len() && (#[trigger] order[i] == 0 && order[next_on_cycle(
            i,
            order.len() as int,
        )] == w || order[i] == w && order[next_on_cycle(i, order.len() as int)] == 0);
    if order[i] == 0 {
        if i > 0 {
            assert(order[0] != order[i]);
        }
    } else {
        let j = next_on_cycle(i, n);
        if j > 0 {
            assert(order[0] != order[j]);
        }
    }
}

/// Where the edge states admit a tour, there is a 1-tree.
#[verifier::rlimit(60)]
pub proof fn lemma_tour_forces_one_tree(p: OneTreeProblem, order: Seq<int>)
    requires
        p.wf(),
        p.dimension >= 3,
        is_symmetric_matrix(p.dimension, p.distances),
        is_symmetric_matrix(p.dimension, p.states),
        is_admitted_tour(p.dimension, p.states, order),
    ensures
        one_tree(p) is Some,
{
    let n = p.dimension;
    let sub = p.without_node_zero();
    assert forall|u: int, v: int| 0 <= u < n && 0 <= v < n implies #[trigger] p.state(u, v)
        == p.state(v, u) by {
        assert(cell_at(n, p.states, u, v) == cell_at(n, p.states, v, u));
    }
    assert forall|u: int, v: int| 0 <= u < n && 0 <= v < n implies #[trigger] p.reduced(u, v)
        == p.reduced(v, u) by {
        assert(cell_at(n, p.distances, u, v) == cell_at(n, p.distances, v, u));
    }
    assert(is_symmetric_instance(p));
    lemma_without_node_zero(p, 1, 0);
    assert forall|u: int, v: int|
        sub.first <= u < sub.dimension && sub.first <= v < sub.dimension
        implies #[trigger] sub.state(u, v) == sub.state(v, u) by {
        lemma_without_node_zero(p, u, v);
        lemma_without_node_zero(p, v, u);
        assert(p.state(u, v) == p.state(v, u));
    }
    assert forall|u: int, v: int|
        sub.first <= u < sub.dimension && sub.first <= v < sub.dimension
        implies #[trigger] sub.reduced(u, v) == sub.reduced(v, u) by {
        lemma_without_node_zero(p, u, v);
        lemma_without_node_zero(p, v, u);
        assert(p.reduced(u, v) == p.reduced(v, u));
    }
    assert(is_symmetric(sub));
    lemma_path_is_a_competitor(p, order);
    lemma_spanning_tree_exists(sub, path_of(order));
    lemma_tour_forces_links(p, order, n);
    lemma_scan_holds_two_cheapest(p, n);
    let found = links_below(p, n)->0;
    let x = order[1];
    let y = order[n - 1];
    assert(order[0] != order[1]);
    assert(order[0] != order[n - 1]);
    assert(order[1] != order[n - 1]);
    assert(next_on_cycle(0, n) == 1);
    assert(next_on_cycle(n - 1, n) == 0);
    assert(takes_admitted_edge(n, p.states, order, 0));
    assert(takes_admitted_edge(n, p.states, order, n - 1));
    assert(p.state(0, x) != EdgeState::Excluded);
    assert(p.state(0, y) == p.state(y, 0));
    assert(p.state(0, y) != EdgeState::Excluded);
    if found.node_a is None {
        assert(p.state(0, x) == EdgeState::Excluded);
    } else if found.node_b is None {
        if found.node_a != Some(x) {
            assert(p.state(0, x) == EdgeState::Excluded);
        } else {
            assert(p.state(0, y) == EdgeState::Excluded);
        }
    }
}

/// Whether the edge states admit no tour.
#[verifier::opaque]
pub open spec fn admits_no_tour(dimension: int, states: Seq<EdgeState>) -> bool {
    forall|order: Seq<int>| !#[trigger] is_admitted_tour(dimension, states, order)
}

/// Where there is no 1-tree, the edge states admit no tour.
pub proof fn lemma_no_one_tree_no_tour(p: OneTreeProblem)
    requires
        p.wf(),
        p.dimension >= 3,
        is_symmetric_matrix(p.dimension, p.distances),
        is_symmetric_matrix(p.dimension, p.states),
        one_tree(p) is None,
    ensures
        admits_no_tour(p.dimension, p.states),
{
    reveal(admits_no_tour);
    assert forall|order: Seq<int>| !#[trigger] is_admitted_tour(p.dimension, p.states, order) by {
        if is_admitted_tour(p.dimension, p.states, order) {
            lemma_tour_forces_one_tree(p, order);
        }
    }
}

/// Whether `tree` has the make of a 1-tree that the edge states admit: one
/// edge per node, each between two different nodes and not `Excluded`, and
/// no two of them between the same two nodes.
pub open spec fn is_admitted_one_tree(
    dimension: int,
    states: Seq<EdgeState>,
    tree: Seq<UnEdge>,
) -> bool {
    &&& tree.len() == dimension
    &&& forall|i: int|
        0 <= i < tree.len() ==> (#[trigger] tree[i]).from.0 < dimension && tree[i].to.0 < dimension
            && tree[i].from.0 != tree[i].to.0 && state_at(
            dimension,
            states,
            tree[i].from.0 as int,
            tree[i].to.0 as int,
        ) != EdgeState::Excluded
    &&& forall|i: int, j: int|
        0 <= i < j < tree.len() ==> !(#[trigger] tree[i]).same_edge(#[trigger] tree[j])
}

/// What the first edges of a grown tree reach, more of its edges reach.
pub proof fn lemma_reaches_more(tree: Seq<UnEdge>, root: int, k: int, more: int, node: int)
    requires
        k <= more,
        reaches(tree, root, k, node),
    ensures
        reaches(tree, root, more, node),
{
    if node != root {
        let j = choose|j: int| 0 <= j < k && (#[trigger] tree[j]).to.0 == node;
        assert(0 <= j < more);
    }
}

/// No two edges of a grown tree join the same two nodes, and none joins a
/// node to itself.
pub proof fn lemma_grown_edges_differ(tree: Seq<UnEdge>, root: int, i: int, j: int)
    requires
        grows_from(tree, root),
        0 <= i < j < tree.len(),
    ensures
        !tree[i].same_edge(tree[j]),
        tree[i].from.0 != tree[i].to.0,
        tree[j].from.0 != tree[j].to.0,
{
    assert(reaches(tree, root, i, tree[i].from.0 as int));
    assert(!reaches(tree, root, i, tree[i].to.0 as int));
    assert(reaches(tree, root, j, tree[j].from.0 as int));
    assert(!reaches(tree, root, j, tree[j].to.0 as int));
    lemma_reaches_more(tree, root, i, j, tree[i].from.0 as int);
    assert(reaches(tree, root, j, tree[i].to.0 as int));
}

/// The minimum 1-tree has the make of a 1-tree that the edge states admit.
#[verifier::rlimit(60)]
pub proof fn lemma_one_tree_is_admitted(p: OneTreeProblem)
    requires
        p.wf(),
        one_tree(p) is Some,
    ensures
        is_admitted_one_tree(p.dimension, p.states, one_tree(p)->0),
{
    let n = p.dimension;
    let sub = p.without_node_zero();
    let tree = spanning_tree(sub)->0;
    let found = links_below(p, n)->0;
    let a = found.node_a->0;
    let b = found.node_b->0;
    let to_a = UnEdge { from: Node(0), to: Node(a as usize) };
    let to_b = UnEdge { from: Node(0), to: Node(b as usize) };
    let whole = tree.push(to_a).push(to_b);
    assert(one_tree(p)->0 == whole);
    lemma_without_node_zero(p, 1, 0);
    lemma_spanning_tree_is_grown(sub);
    lemma_spanning_tree_holds_fixed_edges(sub);
    lemma_links_are_different(p, n);
    lemma_scan_holds_two_cheapest(p, n);
    assert(whole.len() == n);
    assert forall|i: int| 0 <= i < whole.len() implies (#[trigger] whole[i]).from.0 < n
        && whole[i].to.0 < n && whole[i].from.0 != whole[i].to.0 && state_at(
        n,
        p.states,
        whole[i].from.0 as int,
        whole[i].to.0 as int,
    ) != EdgeState::Excluded by {
        if i < n - 2 {
            assert(whole[i] == tree[i]);
            lemma_without_node_zero(p, tree[i].from.0 as int, tree[i].to.0 as int);
            assert(sub.state(tree[i].from.0 as int, tree[i].to.0 as int) != EdgeState::Excluded);
        } else if i == n - 2 {
            assert(whole[i] == to_a);
            assert(p.state(0, a) != EdgeState::Excluded);
        } else {
            assert(whole[i] == to_b);
            assert(p.state(0, b) != EdgeState::Excluded);
        }
    }
    assert forall|i: int, j: int| 0 <= i < j < whole.len() implies !(
    #[trigger] whole[i]).same_edge(#[trigger] whole[j]) by {
        if j < n - 2 {
            assert(whole[i] == tree[i] && whole[j] == tree[j]);
            lemma_grown_edges_differ(tree, 1, i, j);
        } else if i < n - 2 {
            assert(whole[i] == tree[i]);
            assert(whole[j].from.0 == 0);
        } else {
            assert(whole[i] == to_a && whole[j] == to_b);
        }
    }
}

/// Whether the reduced cost of `tree` is at most the reduced cost of every
/// tour that the edge states admit.
#[verifier::opaque]
pub open spec fn is_cheaper_than_tours(p: OneTreeProblem, tree: Seq<UnEdge>) -> bool {
    forall|order: Seq<int>| #[trigger]
        is_admitted_tour(p.dimension, p.states, order) ==> reduced_cost(
            p.dimension,
            p.distances,
            p.penalties,
            tree,
        ) <= tour_reduced_cost(p, order, p.dimension)
}

/// The minimum 1-tree costs no more, in reduced distances, than any tour
/// that the edge states admit.
pub proof fn lemma_one_tree_is_cheaper_than_tours(p: OneTreeProblem)
    requires
        p.wf(),
        p.dimension >= 3,
        is_symmetric_matrix(p.dimension, p.distances),
        is_symmetric_matrix(p.dimension, p.states),
        one_tree(p) is Some,
    ensures
        is_cheaper_than_tours(p, one_tree(p)->0),
{
    reveal(is_cheaper_than_tours);
    assert forall|u: int, v: int|
        0 <= u < p.dimension && 0 <= v < p.dimension implies #[trigger] p.state(u, v) == p.state(
        v,
        u,
    ) by {
        assert(cell_at(p.dimension, p.states, u, v) == cell_at(p.dimension, p.states, v, u));
    }
    assert forall|u: int, v: int|
        0 <= u < p.dimension && 0 <= v < p.dimension implies #[trigger] p.reduced(u, v)
        == p.reduced(v, u) by {
        assert(cell_at(p.dimension, p.distances, u, v) == cell_at(
            p.dimension,
            p.distances,
            v,
            u,
        ));
    }
    assert forall|order: Seq<int>| #[trigger]
        is_admitted_tour(p.dimension, p.states, order) implies reduced_cost(
        p.dimension,
        p.distances,
        p.penalties,
        one_tree(p)->0,
    ) <= tour_reduced_cost(p, order, p.dimension) by {
        lemma_one_tree_is_cheapest(p, order);
    }
}

} // verus!
