//! The cost of a tour by its edges and by the order of its nodes.
//!
//! A tour is given by its edges, in any order and direction, or by the
//! order in which it visits the nodes. On distances that are the same in
//! both directions the two ways of adding up its cost give the same.

use crate::distance::Distance;
use crate::edge::UnEdge;
use crate::held_karp::is_any_tour;
use crate::held_karp::is_optimal;
use crate::held_karp::lemma_every_order_is_a_tour;
use crate::held_karp::lower_bound::raw_cost;
use crate::held_karp::one_tree_laws::cell_at;
use crate::held_karp::one_tree_laws::is_symmetric_matrix;
use crate::held_karp::one_tree_laws::tour_cost;
use crate::held_karp::tours::is_cycle_through;
use crate::held_karp::tours::is_tour;
use crate::held_karp::tours::joins_next;
use crate::held_karp::tree_laws::has_edge;
use crate::held_karp::tree_laws::lists;
use crate::held_karp::tree_laws::next_on_cycle;
use crate::matrix::lemma_cell_in_range;
use vstd::prelude::*;

verus! {

/// The sum of `values`.
pub open spec fn sum_of(values: Seq<int>) -> int
    decreases values.len(),
{
    if values.len() == 0 {
        0
    } else {
        sum_of(values.drop_last()) + values.last()
    }
}

/// The sum of the values at the places `places`, each as often as it is
/// listed.
pub open spec fn sum_at(values: Seq<int>, places: Seq<int>) -> int
    decreases places.len(),
{
    if places.len() == 0 {
        0
    } else {
        sum_at(values, places.drop_last()) + values[places.last()]
    }
}

/// Taking one place out of the list takes its value out of the sum.
pub proof fn lemma_sum_without(values: Seq<int>, places: Seq<int>, j: int)
    requires
        0 <= j < places.len(),
    ensures
        sum_at(values, places) == sum_at(values, places.remove(j)) + values[places[j]],
    decreases places.len(),
{
    if j == places.len() - 1 {
        assert(places.remove(j) =~= places.drop_last());
    } else {
        assert(places.remove(j).drop_last() =~= places.drop_last().remove(j));
        assert(places.remove(j).last() == places.last());
        lemma_sum_without(values, places.drop_last(), j);
    }
}

/// Values at places below the length of a shorter list are the values of
/// the shorter list.
pub proof fn lemma_sum_at_fewer(values: Seq<int>, fewer: Seq<int>, places: Seq<int>)
    requires
        forall|i: int|
            0 <= i < places.len() ==> 0 <= #[trigger] places[i] < fewer.len() && fewer[places[i]]
                == values[places[i]],
    ensures
        sum_at(values, places) == sum_at(fewer, places),
    decreases places.len(),
{
    if places.len() > 0 {
        assert forall|i: int| 0 <= i < places.drop_last().len() implies 0
            <= #[trigger] places.drop_last()[i] < fewer.len() && fewer[places.drop_last()[i]]
            == values[places.drop_last()[i]] by {
            assert(places.drop_last()[i] == places[i]);
        }
        lemma_sum_at_fewer(values, fewer, places.drop_last());
        assert(places.last() == places[places.len() - 1]);
    }
}

/// The values at a list of all places, each listed once, add up to the sum
/// of all values.
pub proof fn lemma_sum_at_all(values: Seq<int>, places: Seq<int>)
    requires
        places.len() == values.len(),
        forall|i: int| 0 <= i < places.len() ==> 0 <= #[trigger] places[i] < places.len(),
        forall|i: int, j: int| 0 <= i < j < places.len() ==> places[i] != places[j],
        forall|v: int| 0 <= v < places.len() ==> #[trigger] lists(places, v),
    ensures
        sum_at(values, places) == sum_of(values),
    decreases places.len(),
{
    if places.len() > 0 {
        let n = places.len() as int;
        assert(lists(places, n - 1));
        let j = choose|j: int| 0 <= j < places.len() && #[trigger] places[j] == n - 1;
        let rest = places.remove(j);
        let fewer = values.drop_last();
        lemma_sum_without(values, places, j);
        assert forall|i: int| 0 <= i < rest.len() implies 0 <= #[trigger] rest[i] < rest.len() by {
            if i < j {
                assert(rest[i] == places[i]);
                assert(places[i] != places[j]);
            } else {
                assert(rest[i] == places[i + 1]);
                assert(places[j] != places[i + 1]);
            }
        }
        assert forall|a: int, b: int| 0 <= a < b < rest.len() implies rest[a] != rest[b] by {
            let a2 = if a < j {
                a
            } else {
                a + 1
            };
            let b2 = if b < j {
                b
            } else {
                b + 1
            };
            assert(rest[a] == places[a2] && rest[b] == places[b2]);
            assert(places[a2] != places[b2]);
        }
        assert forall|v: int| 0 <= v < rest.len() implies #[trigger] lists(rest, v) by {
            assert(lists(places, v));
            let i = choose|i: int| 0 <= i < places.len() && #[trigger] places[i] == v;
            if i < j {
                assert(rest[i] == v);
            } else {
                assert(rest[i - 1] == v);
            }
        }
        lemma_sum_at_all(fewer, rest);
        lemma_sum_at_fewer(values, fewer, rest);
    }
}

/// A list of as many different places as there are places lists every
/// place.
pub proof fn lemma_all_places_are_listed(places: Seq<int>, v: int)
    requires
        forall|i: int| 0 <= i < places.len() ==> 0 <= #[trigger] places[i] < places.len(),
        forall|i: int, j: int| 0 <= i < j < places.len() ==> places[i] != places[j],
        0 <= v < places.len(),
    ensures
        lists(places, v),
    decreases places.len(),
{
    let n = places.len() as int;
    let last = places[n - 1];
    if v == last {
    } else {
        // The places before the last, with the greatest place taken for the
        // last one.
        let fewer = Seq::new(
            (n - 1) as nat,
            |i: int|
                if places[i] == n - 1 {
                    last
                } else {
                    places[i]
                },
        );
        assert forall|i: int| 0 <= i < fewer.len() implies 0 <= #[trigger] fewer[i]
            < fewer.len() by {
            assert(places[i] != places[n - 1]);
        }
        assert forall|i: int, j: int| 0 <= i < j < fewer.len() implies fewer[i] != fewer[j] by {
            assert(places[i] != places[j]);
            assert(places[i] != places[n - 1]);
            assert(places[j] != places[n - 1]);
        }
        let sought = if v == n - 1 {
            last
        } else {
            v
        };
        lemma_all_places_are_listed(fewer, sought);
        let i = choose|i: int| 0 <= i < fewer.len() && #[trigger] fewer[i] == sought;
        assert(places[i] == v);
    }
}

/// The distance of the edge `edge`.
pub open spec fn edge_cost(dimension: int, distances: Seq<Distance>, edge: UnEdge) -> int {
    distances[edge.from.0 * dimension + edge.to.0].0 as int
}

/// The distances of `edges`, edge by edge.
pub open spec fn edge_costs(dimension: int, distances: Seq<Distance>, edges: Seq<UnEdge>) -> Seq<
    int,
> {
    Seq::new(edges.len(), |k: int| edge_cost(dimension, distances, edges[k]))
}

/// The cost of edges is the sum of their distances.
pub proof fn lemma_raw_cost_is_a_sum(dimension: int, distances: Seq<Distance>, edges: Seq<UnEdge>)
    ensures
        raw_cost(dimension, distances, edges) == sum_of(edge_costs(dimension, distances, edges)),
    decreases edges.len(),
{
    if edges.len() > 0 {
        lemma_raw_cost_is_a_sum(dimension, distances, edges.drop_last());
        assert(edge_costs(dimension, distances, edges).drop_last() =~= edge_costs(
            dimension,
            distances,
            edges.drop_last(),
        ));
    }
}

/// The place among `edges` of the edge that joins the node at place `i` of
/// `order` to the next.
pub open spec fn edge_place(edges: Seq<UnEdge>, order: Seq<int>, i: int) -> int {
    let u = order[i];
    let v = order[next_on_cycle(i, order.len() as int)];
    choose|k: int|
        0 <= k < edges.len() && ((#[trigger] edges[k]).from.0 == u && edges[k].to.0 == v
            || edges[k].from.0 == v && edges[k].to.0 == u)
}

/// The places among `edges` of the edges of the tour through `order`.
pub open spec fn edge_places(edges: Seq<UnEdge>, order: Seq<int>) -> Seq<int> {
    Seq::new(order.len(), |i: int| edge_place(edges, order, i))
}

/// The edge at its place joins the node at place `i` to the next.
pub proof fn lemma_edge_place(edges: Seq<UnEdge>, order: Seq<int>, i: int)
    requires
        is_cycle_through(edges, order),
        0 <= i < order.len(),
    ensures
        0 <= edge_place(edges, order, i) < edges.len(),
        ({
            let k = edge_place(edges, order, i);
            let u = order[i];
            let v = order[next_on_cycle(i, order.len() as int)];
            edges[k].from.0 == u && edges[k].to.0 == v || edges[k].from.0 == v && edges[k].to.0
                == u
        }),
{
    assert(joins_next(edges, order, i));
}

/// On a tour through three nodes or more, the edges from different places
/// of the tour stand at different places among the edges.
pub proof fn lemma_edge_places_differ(edges: Seq<UnEdge>, order: Seq<int>, i: int, j: int)
    requires
        is_cycle_through(edges, order),
        order.len() >= 3,
        0 <= i < j < order.len(),
    ensures
        edge_place(edges, order, i) != edge_place(edges, order, j),
{
    let n = order.len() as int;
    lemma_edge_place(edges, order, i);
    lemma_edge_place(edges, order, j);
    let ni = next_on_cycle(i, n);
    let nj = next_on_cycle(j, n);
    if edge_place(edges, order, i) == edge_place(edges, order, j) {
        assert(order[i] != order[j]);
        if ni < nj {
            assert(order[ni] != order[nj]);
        } else if nj < ni {
            assert(order[nj] != order[ni]);
        }
        if i < nj {
            assert(order[i] != order[nj]);
        } else if nj < i {
            assert(order[nj] != order[i]);
        }
        if ni < j {
            assert(order[ni] != order[j]);
        } else if j < ni {
            assert(order[j] != order[ni]);
        }
        assert(false);
    }
}

/// The cost of the first `k` edges of a tour by the order of its nodes is
/// the sum of the distances of the edges at their places.
pub proof fn lemma_tour_cost_by_places(
    dimension: int,
    distances: Seq<Distance>,
    edges: Seq<UnEdge>,
    order: Seq<int>,
    k: int,
)
    requires
        dimension == order.len(),
        is_symmetric_matrix(dimension, distances),
        is_cycle_through(edges, order),
        0 <= k <= order.len(),
    ensures
        tour_cost(dimension, distances, order, k) == sum_at(
            edge_costs(dimension, distances, edges),
            edge_places(edges, order).take(k),
        ),
    decreases k,
{
    let places = edge_places(edges, order);
    if k == 0 {
        assert(places.take(0).len() == 0);
    } else {
        lemma_tour_cost_by_places(dimension, distances, edges, order, k - 1);
        assert(places.take(k).drop_last() =~= places.take(k - 1));
        assert(places.take(k).last() == places[k - 1]);
        lemma_edge_place(edges, order, k - 1);
        let u = order[k - 1];
        let v = order[next_on_cycle(k - 1, dimension)];
        assert(0 <= v < dimension);
        assert(cell_at(dimension, distances, u, v) == cell_at(dimension, distances, v, u));
    }
}

/// On distances that are the same in both directions, the cost of the edges
/// of a tour is the cost of the tour by the order of its nodes.
pub proof fn lemma_cost_by_edges_and_by_order(
    dimension: int,
    distances: Seq<Distance>,
    edges: Seq<UnEdge>,
    order: Seq<int>,
)
    requires
        dimension >= 3,
        dimension == order.len(),
        is_symmetric_matrix(dimension, distances),
        is_cycle_through(edges, order),
    ensures
        raw_cost(dimension, distances, edges) == tour_cost(dimension, distances, order, dimension),
{
    let places = edge_places(edges, order);
    let costs = edge_costs(dimension, distances, edges);
    assert forall|i: int| 0 <= i < places.len() implies 0 <= #[trigger] places[i]
        < places.len() by {
        lemma_edge_place(edges, order, i);
    }
    assert forall|i: int, j: int| 0 <= i < j < places.len() implies places[i] != places[j] by {
        lemma_edge_places_differ(edges, order, i, j);
    }
    assert forall|v: int| 0 <= v < places.len() implies #[trigger] lists(places, v) by {
        lemma_all_places_are_listed(places, v);
    }
    lemma_sum_at_all(costs, places);
    lemma_tour_cost_by_places(dimension, distances, edges, order, dimension);
    assert(places.take(dimension) =~= places);
    lemma_raw_cost_is_a_sum(dimension, distances, edges);
}

/// Whether `order` lists every node once.
pub open spec fn is_round_trip(dimension: int, order: Seq<int>) -> bool {
    &&& order.len() == dimension
    &&& forall|i: int| 0 <= i < order.len() ==> 0 <= #[trigger] order[i] < dimension
    &&& forall|i: int, j: int| 0 <= i < j < order.len() ==> order[i] != order[j]
}

/// The distances of the edges of the tour through `order`, place by place.
pub open spec fn step_costs(dimension: int, distances: Seq<Distance>, order: Seq<int>) -> Seq<int> {
    Seq::new(
        order.len(),
        |i: int|
            distances[order[i] * dimension + order[next_on_cycle(i, order.len() as int)]].0 as int,
    )
}

/// The cost of the first `k` edges of a tour is the sum of the distances of
/// its first `k` steps.
pub proof fn lemma_tour_cost_by_steps(
    dimension: int,
    distances: Seq<Distance>,
    order: Seq<int>,
    k: int,
)
    requires
        0 <= k <= order.len(),
    ensures
        tour_cost(dimension, distances, order, k) == sum_of(
            step_costs(dimension, distances, order).take(k),
        ),
    decreases k,
{
    let steps = step_costs(dimension, distances, order);
    if k == 0 {
        assert(steps.take(0).len() == 0);
    } else {
        lemma_tour_cost_by_steps(dimension, distances, order, k - 1);
        assert(steps.take(k).drop_last() =~= steps.take(k - 1));
        assert(steps.take(k).last() == steps[k - 1]);
    }
}

/// The place that comes `shift` places after `i` on a cycle of `length`
/// places.
pub open spec fn shifted(i: int, shift: int, length: int) -> int {
    if i + shift < length {
        i + shift
    } else {
        i + shift - length
    }
}

/// The tour through `order`, started `shift` places later.
pub open spec fn rotated(order: Seq<int>, shift: int) -> Seq<int> {
    Seq::new(order.len(), |i: int| order[shifted(i, shift, order.len() as int)])
}

/// The sum of the values at the first `k` places is the sum of the first
/// `k` of the values at the places.
pub proof fn lemma_sum_at_take(values: Seq<int>, places: Seq<int>, picked: Seq<int>, k: int)
    requires
        0 <= k <= places.len(),
        picked.len() == places.len(),
        forall|i: int| 0 <= i < places.len() ==> #[trigger] picked[i] == values[places[i]],
    ensures
        sum_at(values, places.take(k)) == sum_of(picked.take(k)),
    decreases k,
{
    if k == 0 {
        assert(places.take(0).len() == 0);
        assert(picked.take(0).len() == 0);
    } else {
        lemma_sum_at_take(values, places, picked, k - 1);
        assert(places.take(k).drop_last() =~= places.take(k - 1));
        assert(picked.take(k).drop_last() =~= picked.take(k - 1));
        assert(places.take(k).last() == places[k - 1]);
        assert(picked.take(k).last() == picked[k - 1]);
    }
}

/// A tour costs the same wherever it is started.
pub proof fn lemma_rotation_keeps_cost(
    dimension: int,
    distances: Seq<Distance>,
    order: Seq<int>,
    shift: int,
)
    requires
        dimension >= 1,
        order.len() == dimension,
        0 <= shift < dimension,
    ensures
        tour_cost(dimension, distances, rotated(order, shift), dimension) == tour_cost(
            dimension,
            distances,
            order,
            dimension,
        ),
        rotated(order, shift).len() == dimension,
{
    let n = dimension;
    let turned = rotated(order, shift);
    let steps = step_costs(n, distances, order);
    let turned_steps = step_costs(n, distances, turned);
    let places = Seq::new(n as nat, |i: int| shifted(i, shift, n));
    assert forall|i: int| 0 <= i < n implies #[trigger] turned_steps[i] == steps[places[i]] by {
        let at = shifted(i, shift, n);
        assert(shifted(next_on_cycle(i, n), shift, n) == next_on_cycle(at, n));
    }
    assert forall|v: int| 0 <= v < places.len() implies #[trigger] lists(places, v) by {
        lemma_all_places_are_listed(places, v);
    }
    lemma_sum_at_all(steps, places);
    lemma_sum_at_take(steps, places, turned_steps, n);
    assert(places.take(n) =~= places);
    assert(turned_steps.take(n) =~= turned_steps);
    assert(steps.take(n) =~= steps);
    lemma_tour_cost_by_steps(n, distances, order, n);
    lemma_tour_cost_by_steps(n, distances, turned, n);
}

/// A round trip started at another place is a round trip.
pub proof fn lemma_rotation_is_a_round_trip(dimension: int, order: Seq<int>, shift: int)
    requires
        is_round_trip(dimension, order),
        0 <= shift < dimension,
    ensures
        is_round_trip(dimension, rotated(order, shift)),
        rotated(order, shift)[0] == order[shift],
{
    let n = dimension;
    let turned = rotated(order, shift);
    assert forall|i: int, j: int| 0 <= i < j < turned.len() implies turned[i] != turned[j] by {
        let a = shifted(i, shift, n);
        let b = shifted(j, shift, n);
        if a < b {
            assert(order[a] != order[b]);
        } else {
            assert(order[b] != order[a]);
        }
    }
}

/// The label of a node when the labels `a` and `b` change places.
pub open spec fn swapped(a: int, b: int, node: int) -> int {
    if node == a {
        b
    } else if node == b {
        a
    } else {
        node
    }
}

/// Whether `relabelled` holds the distances of `distances` with the labels
/// `a` and `b` changed.
pub open spec fn is_relabelled(
    dimension: int,
    distances: Seq<Distance>,
    relabelled: Seq<Distance>,
    a: int,
    b: int,
) -> bool {
    &&& relabelled.len() == distances.len()
    &&& forall|u: int, v: int|
        0 <= u < dimension && 0 <= v < dimension ==> #[trigger] cell_at(
            dimension,
            relabelled,
            u,
            v,
        ) == cell_at(dimension, distances, swapped(a, b, u), swapped(a, b, v))
}

/// The tour through `order` under changed labels.
pub open spec fn relabelled_order(order: Seq<int>, a: int, b: int) -> Seq<int> {
    Seq::new(order.len(), |i: int| swapped(a, b, order[i]))
}

/// A tour costs under changed labels what the relabelled tour costs under
/// the old ones.
pub proof fn lemma_relabelling_keeps_cost(
    dimension: int,
    distances: Seq<Distance>,
    relabelled: Seq<Distance>,
    a: int,
    b: int,
    order: Seq<int>,
    k: int,
)
    requires
        is_round_trip(dimension, order),
        is_relabelled(dimension, distances, relabelled, a, b),
        0 <= a < dimension,
        0 <= b < dimension,
        0 <= k <= dimension,
    ensures
        tour_cost(dimension, distances, relabelled_order(order, a, b), k) == tour_cost(
            dimension,
            relabelled,
            order,
            k,
        ),
        is_round_trip(dimension, relabelled_order(order, a, b)),
    decreases k,
{
    let changed = relabelled_order(order, a, b);
    assert forall|i: int, j: int| 0 <= i < j < changed.len() implies changed[i] != changed[j] by {
        assert(order[i] != order[j]);
    }
    if k > 0 {
        lemma_relabelling_keeps_cost(dimension, distances, relabelled, a, b, order, k - 1);
        let u = order[k - 1];
        let v = order[next_on_cycle(k - 1, dimension)];
        assert(0 <= v < dimension);
        assert(cell_at(dimension, relabelled, u, v) == cell_at(
            dimension,
            distances,
            swapped(a, b, u),
            swapped(a, b, v),
        ));
    }
}

/// A round trip has a place for every node.
pub proof fn lemma_round_trip_lists_all(dimension: int, order: Seq<int>)
    requires
        is_round_trip(dimension, order),
    ensures
        forall|v: int| 0 <= v < dimension ==> #[trigger] lists(order, v),
{
    assert forall|v: int| 0 <= v < dimension implies #[trigger] lists(order, v) by {
        lemma_all_places_are_listed(order, v);
    }
}

/// A round trip, started at node 0, is a tour of the same cost.
pub proof fn lemma_round_trip_from_zero(
    dimension: int,
    distances: Seq<Distance>,
    order: Seq<int>,
) -> (from_zero: Seq<int>)
    requires
        dimension >= 1,
        is_round_trip(dimension, order),
    ensures
        is_any_tour(dimension, from_zero),
        tour_cost(dimension, distances, from_zero, dimension) == tour_cost(
            dimension,
            distances,
            order,
            dimension,
        ),
{
    lemma_round_trip_lists_all(dimension, order);
    assert(lists(order, 0));
    let shift = choose|i: int| 0 <= i < order.len() && #[trigger] order[i] == 0;
    let from_zero = rotated(order, shift);
    lemma_rotation_is_a_round_trip(dimension, order, shift);
    lemma_rotation_keeps_cost(dimension, distances, order, shift);
    lemma_round_trip_lists_all(dimension, from_zero);
    lemma_every_order_is_a_tour(dimension, from_zero);
    from_zero
}

/// Whether `cost` is the cost of a tour.
pub open spec fn is_cost_of_a_tour(dimension: int, distances: Seq<Distance>, cost: int) -> bool {
    exists|order: Seq<int>| #[trigger]
        is_any_tour(dimension, order) && tour_cost(dimension, distances, order, dimension) == cost
}

/// On distances that are the same in both directions, the cost of the edges
/// of a tour is the cost of a tour from node 0.
pub proof fn lemma_edges_cost_what_a_tour_costs(
    dimension: int,
    distances: Seq<Distance>,
    edges: Seq<UnEdge>,
)
    requires
        dimension >= 3,
        is_symmetric_matrix(dimension, distances),
        is_tour(edges, dimension),
    ensures
        is_cost_of_a_tour(dimension, distances, raw_cost(dimension, distances, edges)),
{
    let order = choose|order: Seq<int>| is_cycle_through(edges, order);
    lemma_cost_by_edges_and_by_order(dimension, distances, edges, order);
    let from_zero = lemma_round_trip_from_zero(dimension, distances, order);
    assert(is_any_tour(dimension, from_zero) && tour_cost(
        dimension,
        distances,
        from_zero,
        dimension,
    ) == raw_cost(dimension, distances, edges));
}

/// Where the labels of two nodes change places, the cost of a tour under
/// the new labels is the cost of a tour under the old ones.
pub proof fn lemma_relabelled_tour(
    dimension: int,
    distances: Seq<Distance>,
    relabelled: Seq<Distance>,
    a: int,
    b: int,
    cost: int,
)
    requires
        dimension >= 1,
        is_relabelled(dimension, distances, relabelled, a, b),
        0 <= a < dimension,
        0 <= b < dimension,
        is_cost_of_a_tour(dimension, relabelled, cost),
    ensures
        is_cost_of_a_tour(dimension, distances, cost),
{
    let order = choose|order: Seq<int>| #[trigger]
        is_any_tour(dimension, order) && tour_cost(dimension, relabelled, order, dimension)
            == cost;
    assert(is_round_trip(dimension, order));
    lemma_relabelling_keeps_cost(dimension, distances, relabelled, a, b, order, dimension);
    let changed = relabelled_order(order, a, b);
    let from_zero = lemma_round_trip_from_zero(dimension, distances, changed);
    assert(is_any_tour(dimension, from_zero) && tour_cost(
        dimension,
        distances,
        from_zero,
        dimension,
    ) == cost);
}

/// Changing the labels of two nodes does not change the cost of the best
/// tour.
pub proof fn lemma_relabelling_keeps_optimum(
    dimension: int,
    distances: Seq<Distance>,
    relabelled: Seq<Distance>,
    a: int,
    b: int,
    cost: int,
    relabelled_cost: int,
)
    requires
        dimension >= 1,
        distances.len() == dimension * dimension,
        is_relabelled(dimension, distances, relabelled, a, b),
        0 <= a < dimension,
        0 <= b < dimension,
        is_cost_of_a_tour(dimension, distances, cost),
        is_optimal(dimension, distances, cost),
        is_cost_of_a_tour(dimension, relabelled, relabelled_cost),
        is_optimal(dimension, relabelled, relabelled_cost),
    ensures
        cost == relabelled_cost,
{
    lemma_relabelled_tour(dimension, distances, relabelled, a, b, relabelled_cost);
    assert forall|u: int, v: int|
        0 <= u < dimension && 0 <= v < dimension implies #[trigger] cell_at(
        dimension,
        distances,
        u,
        v,
    ) == cell_at(dimension, relabelled, swapped(a, b, u), swapped(a, b, v)) by {
        let su = swapped(a, b, u);
        let sv = swapped(a, b, v);
        assert(cell_at(dimension, relabelled, su, sv) == cell_at(
            dimension,
            distances,
            swapped(a, b, su),
            swapped(a, b, sv),
        ));
    }
    assert(is_relabelled(dimension, relabelled, distances, a, b));
    lemma_relabelled_tour(dimension, relabelled, distances, a, b, cost);
    let one = choose|order: Seq<int>| #[trigger]
        is_any_tour(dimension, order) && tour_cost(dimension, distances, order, dimension)
            == relabelled_cost;
    let other = choose|order: Seq<int>| #[trigger]
        is_any_tour(dimension, order) && tour_cost(dimension, relabelled, order, dimension)
            == cost;
}

} // verus!
