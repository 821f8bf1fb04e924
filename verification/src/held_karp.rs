//! The Held-Karp solver: branch and bound over edge states, bounded from
//! below by minimum 1-trees under Lagrangian relaxation.

pub mod bound_laws;
pub mod branching;
pub mod edge_state;
pub mod feasibility;
pub mod lower_bound;
pub mod one_tree_laws;
pub mod optimality;
pub mod search;
pub mod search_laws;
pub mod tour_cost_laws;
pub mod tours;
pub mod tree_laws;
pub mod trees;

use crate::distance::DISTANCE_MAX;
use crate::distance::Distance;
use crate::distance::ScaledDistance;
use crate::distance::truncating_div;
use crate::edge::UnEdge;
use crate::edge::UnTour;
use crate::held_karp::branching::initial_penalties;
use crate::held_karp::branching::row_minimum;
use crate::held_karp::edge_state::EdgeState;
use crate::held_karp::lower_bound::cost_of_edges;
use crate::held_karp::lower_bound::distances_fit;
use crate::held_karp::lower_bound::edges_in_range;
use crate::held_karp::lower_bound::raw_cost;
use crate::held_karp::one_tree_laws::bounds_admitted_tours;
use crate::held_karp::one_tree_laws::cell_at;
use crate::held_karp::one_tree_laws::is_admitted_tour;
use crate::held_karp::one_tree_laws::is_symmetric_matrix;
use crate::held_karp::one_tree_laws::on_tour;
use crate::held_karp::one_tree_laws::state_at;
use crate::held_karp::one_tree_laws::takes_admitted_edge;
use crate::held_karp::one_tree_laws::tour_cost;
use crate::held_karp::search::Progress;
use crate::held_karp::search::SearchProblem;
use crate::held_karp::search::SearchState;
use crate::held_karp::search::degrees_bounded;
use crate::held_karp::search::explore;
use crate::held_karp::search::explore_node;
use crate::held_karp::search::spec_limit;
use crate::held_karp::search::states_symmetric;
use crate::held_karp::search_laws::lemma_no_degrees;
use crate::held_karp::tour_cost_laws::is_cost_of_a_tour;
use crate::held_karp::tour_cost_laws::is_relabelled;
use crate::held_karp::tour_cost_laws::lemma_relabelling_keeps_optimum;
use crate::held_karp::tour_cost_laws::swapped;
use crate::held_karp::tour_cost_laws::lemma_edges_cost_what_a_tour_costs;
use crate::held_karp::tours::is_tour;
use crate::held_karp::tours::lemma_identity_tour_is_a_tour;
use crate::held_karp::tree_laws::lists;
use crate::held_karp::tree_laws::next_on_cycle;
use crate::matrix::EdgeDataMatrix;
use crate::matrix::lemma_cell_in_range;
use crate::node::Node;
use vstd::prelude::*;

verus! {

/// The tour `0, 1, ..., n - 1, 0`.
pub open spec fn identity_tour(dimension: int) -> Seq<UnEdge> {
    Seq::new(
        dimension as nat,
        |i: int|
            UnEdge { from: Node(i as usize), to: Node(next_on_cycle(i, dimension) as usize) },
    )
}

/// The distances in scaled form.
pub open spec fn scaled_form(distances: Seq<Distance>) -> Seq<ScaledDistance> {
    Seq::new(distances.len(), |i: int| ScaledDistance::spec_from_distance(distances[i]))
}

/// The penalties that the search starts from: for every node, half the
/// scaled distance to its nearest other node.
pub open spec fn start_penalties(dimension: int, scaled_distances: Seq<ScaledDistance>) -> Seq<
    ScaledDistance,
> {
    Seq::new(
        dimension as nat,
        |v: int|
            ScaledDistance(
                truncating_div(row_minimum(dimension, scaled_distances, v, dimension), 2) as i32,
            ),
    )
}

/// What the search is started with: the node penalties of
/// [`start_penalties`], the identity tour as the best tour, and no search
/// node entered.
pub open spec fn start_progress(dimension: int, distances: Seq<Distance>) -> Progress {
    Progress {
        penalties: start_penalties(dimension, scaled_form(distances)),
        best_edges: identity_tour(dimension),
        best_cost: raw_cost(dimension, distances, identity_tour(dimension)),
        counter: 0,
    }
}

/// What the whole search leaves: the search from the root with every edge
/// `Available` and no edge fixed.
pub open spec fn solve(dimension: int, distances: Seq<Distance>, limit: Option<int>) -> Progress {
    explore(
        SearchProblem {
            dimension,
            distances,
            scaled_distances: scaled_form(distances),
            limit,
        },
        Seq::new((dimension * dimension) as nat, |i: int| EdgeState::Available),
        Seq::new(dimension as nat, |v: int| 0u32),
        start_progress(dimension, distances),
        true,
    )
}

/// The edge states at the start of the search: every edge `Available`.
pub open spec fn all_available(dimension: int) -> Seq<EdgeState> {
    Seq::new((dimension * dimension) as nat, |i: int| EdgeState::Available)
}

/// Whether `order` is a tour: it lists every node once, node 0 first.
pub open spec fn is_any_tour(dimension: int, order: Seq<int>) -> bool {
    is_admitted_tour(dimension, all_available(dimension), order)
}

/// Whether no tour costs less than `cost`.
pub open spec fn is_optimal(dimension: int, distances: Seq<Distance>, cost: int) -> bool {
    forall|order: Seq<int>| #[trigger]
        is_any_tour(dimension, order) ==> cost <= tour_cost(
            dimension,
            distances,
            order,
            dimension,
        )
}

/// Every list of all nodes that starts with node 0 is a tour.
pub proof fn lemma_every_order_is_a_tour(dimension: int, order: Seq<int>)
    requires
        dimension >= 1,
        order.len() == dimension,
        order[0] == 0,
        forall|i: int| 0 <= i < order.len() ==> 0 <= #[trigger] order[i] < dimension,
        forall|i: int, j: int| 0 <= i < j < order.len() ==> order[i] != order[j],
        forall|v: int| 0 <= v < dimension ==> #[trigger] lists(order, v),
    ensures
        is_any_tour(dimension, order),
{
    let states = all_available(dimension);
    assert forall|i: int| 0 <= i < order.len() implies #[trigger] takes_admitted_edge(
        dimension,
        states,
        order,
        i,
    ) by {
        let u = order[i];
        let v = order[next_on_cycle(i, order.len() as int)];
        lemma_cell_in_range(u, v, dimension);
    }
    assert forall|u: int, v: int|
        0 <= u < dimension && 0 <= v < dimension && u != v && #[trigger] state_at(
            dimension,
            states,
            u,
            v,
        ) == EdgeState::Fixed implies on_tour(order, u, v) by {
        lemma_cell_in_range(u, v, dimension);
    }
}

/// Whether [`held_karp`] accepts `distances`: the matrix is well formed, no
/// distance is negative, and `dimension` times any distance is at most
/// `DISTANCE_MAX`, so that the cost of every tour is a [`Distance`].
pub fn distances_are_solvable(distances: &EdgeDataMatrix<Distance>) -> (res: bool)
    ensures
        res == (distances.wf() && distances_fit(distances.data@, distances.dimension as int)),
{
    let dimension = distances.dimension;
    let cells = match dimension.checked_mul(dimension) {
        Some(cells) => cells,
        None => {
            proof {
                assert(distances.data.len() == distances.data@.len());
            }
            return false;
        },
    };
    if distances.data.len() != cells {
        return false;
    }
    let mut i: usize = 0;
    while i < cells
        invariant
            i <= cells,
            cells == distances.data@.len(),
            dimension == distances.dimension,
            forall|k: int|
                0 <= k < i ==> 0 <= (#[trigger] distances.data@[k]).0 && distances.data@[k].0
                    * dimension <= DISTANCE_MAX,
        decreases cells - i,
    {
        let distance = distances.data[i].0;
        assert(-0x8000_0000 * 0x1_0000_0000_0000_0000 <= distance * dimension <= 0x8000_0000
            * 0x1_0000_0000_0000_0000) by (nonlinear_arith)
            requires
                -0x8000_0000 <= distance <= 0x8000_0000,
                0 <= dimension <= 0x1_0000_0000_0000_0000,
        ;
        if distance < 0 || distance as i128 * dimension as i128 > DISTANCE_MAX as i128 {
            return false;
        }
        i = i + 1;
    }
    true
}

/// The distances of `distances` in scaled form, cell by cell.
pub fn scale_distances(distances: &EdgeDataMatrix<Distance>) -> (res: EdgeDataMatrix<
    ScaledDistance,
>)
    requires
        distances.wf(),
    ensures
        res.wf(),
        res.dimension == distances.dimension,
        res.data@ == scaled_form(distances.data@),
{
    let mut data: Vec<ScaledDistance> = Vec::with_capacity(distances.data.len());
    let mut i: usize = 0;
    while i < distances.data.len()
        invariant
            i <= distances.data.len(),
            data@.len() == i,
            forall|k: int|
                0 <= k < i ==> #[trigger] data@[k] == ScaledDistance::spec_from_distance(
                    distances.data@[k],
                ),
        decreases distances.data.len() - i,
    {
        data.push(ScaledDistance::from_distance(distances.data[i]));
        i = i + 1;
    }
    proof {
        assert(data@ =~= scaled_form(distances.data@));
    }
    EdgeDataMatrix { data, dimension: distances.dimension }
}

/// The edges of the tour `0, 1, ..., n - 1, 0`.
pub fn identity_tour_edges(dimension: usize) -> (res: Vec<UnEdge>)
    requires
        dimension >= 2,
    ensures
        res@ == identity_tour(dimension as int),
        res@.len() == dimension,
        edges_in_range(res@, dimension as int),
        is_tour(res@, dimension as int),
{
    let mut edges: Vec<UnEdge> = Vec::with_capacity(dimension);
    let mut i: usize = 0;
    while i < dimension
        invariant
            i <= dimension,
            dimension >= 2,
            edges@.len() == i,
            forall|k: int|
                0 <= k < i ==> #[trigger] edges@[k] == (UnEdge {
                    from: Node(k as usize),
                    to: Node(next_on_cycle(k, dimension as int) as usize),
                }),
            forall|k: int|
                0 <= k < i ==> (#[trigger] edges@[k]).from.0 < dimension && edges@[k].to.0
                    < dimension && edges@[k].from.0 != edges@[k].to.0,
        decreases dimension - i,
    {
        let next = if i + 1 == dimension {
            0
        } else {
            i + 1
        };
        edges.push(UnEdge { from: Node(i), to: Node(next) });
        i = i + 1;
    }
    proof {
        assert(edges@ =~= identity_tour(dimension as int));
        lemma_identity_tour_is_a_tour(edges@, dimension as int);
    }
    edges
}

/// Solves the instance given by `distances`, entering at most `bb_limit`
/// search nodes if a limit is given.
///
/// Returns the best tour found, with its cost; `None` for fewer than three
/// nodes. Without a limit the search runs until every node of the search
/// tree is closed.
pub fn held_karp_with_limit(distances: &EdgeDataMatrix<Distance>, bb_limit: Option<usize>) -> (res:
    Option<UnTour>)
    requires
        distances.wf(),
        distances_fit(distances.data@, distances.dimension as int),
    ensures
        distances.dimension < 3 ==> res is None,
        distances.dimension >= 3 ==> res is Some,
        res matches Some(tour) ==> {
            &&& tour.edges@ == solve(
                distances.dimension as int,
                distances.data@,
                spec_limit(bb_limit),
            ).best_edges
            &&& tour.cost.0 == solve(
                distances.dimension as int,
                distances.data@,
                spec_limit(bb_limit),
            ).best_cost
            &&& is_tour(tour.edges@, distances.dimension as int)
            &&& edges_in_range(tour.edges@, distances.dimension as int)
            &&& tour.cost.0 == raw_cost(distances.dimension as int, distances.data@, tour.edges@)
            &&& 0 <= tour.cost.0 <= DISTANCE_MAX
            &&& tour.cost.0 <= raw_cost(
                distances.dimension as int,
                distances.data@,
                identity_tour(distances.dimension as int),
            )
        },
        res matches Some(tour) ==> (is_symmetric_matrix(
            distances.dimension as int,
            distances.data@,
        ) ==> is_cost_of_a_tour(distances.dimension as int, distances.data@, tour.cost.0 as int)),
        res matches Some(tour) ==> (bb_limit is None && is_symmetric_matrix(
            distances.dimension as int,
            distances.data@,
        ) ==> is_optimal(distances.dimension as int, distances.data@, tour.cost.0 as int)),
{
    let dimension = distances.dimension;
    if dimension < 3 {
        return None;
    }
    let ghost n = dimension as int;
    proof {
        assert(distances.data.len() == distances.data@.len());
    }
    let scaled_distances = scale_distances(distances);
    let edge_states = EdgeDataMatrix::new_from_dimension_with_value(
        dimension,
        EdgeState::Available,
    );
    let node_penalties = initial_penalties(&scaled_distances, dimension);
    let mut fixed_degrees: Vec<u32> = Vec::with_capacity(dimension);
    let mut i: usize = 0;
    while i < dimension
        invariant
            i <= dimension,
            fixed_degrees@.len() == i,
            forall|v: int| 0 <= v < i ==> fixed_degrees@[v] == 0,
        decreases dimension - i,
    {
        fixed_degrees.push(0);
        i = i + 1;
    }
    let edges = identity_tour_edges(dimension);
    let cost = cost_of_edges(distances, &edges);
    let mut state = SearchState {
        edge_states,
        node_penalties,
        fixed_degrees,
        best_tour: UnTour { edges, cost },
        bb_counter: 0,
    };
    proof {
        reveal(states_symmetric);
        reveal(degrees_bounded);
        assert forall|r: int, c: int| 0 <= r < n && 0 <= c < n implies #[trigger]
            state.edge_states.entry(r, c) == state.edge_states.entry(c, r) by {
            lemma_cell_in_range(r, c, n);
            lemma_cell_in_range(c, r, n);
        }
        assert(state.edge_states.data@ =~= Seq::new((n * n) as nat, |i: int| EdgeState::Available));
        assert(state.fixed_degrees@ =~= Seq::new(n as nat, |v: int| 0u32));
        assert(state.node_penalties@ =~= start_penalties(n, scaled_form(distances.data@)));
        assert(state.progress() == start_progress(n, distances.data@));
    }
    proof {
        assert forall|i: int| 0 <= i < distances.data@.len() implies (
        #[trigger] scaled_distances.data@[i]).0 == distances.data@[i].0 * 32 by {
            let d = distances.data@[i].0 as int;
            assert(0 <= d && d * n <= DISTANCE_MAX);
            assert(d <= DISTANCE_MAX) by (nonlinear_arith)
                requires
                    0 <= d,
                    d * n <= DISTANCE_MAX,
                    1 <= n,
            ;
        }
    }
    proof {
        if is_symmetric_matrix(n, distances.data@) {
            assert forall|u: int, v: int| 0 <= u < n && 0 <= v < n implies #[trigger] cell_at(
                n,
                scaled_distances.data@,
                u,
                v,
            ) == cell_at(n, scaled_distances.data@, v, u) by {
                lemma_cell_in_range(u, v, n);
                lemma_cell_in_range(v, u, n);
                assert(cell_at(n, distances.data@, u, v) == cell_at(n, distances.data@, v, u));
            }
        }
        lemma_no_degrees(
            n,
            state.edge_states.data@,
            state.fixed_degrees@,
        );
        assert(state.edge_states.data@ == all_available(n));
    }
    explore_node(distances, &scaled_distances, &mut state, bb_limit, 0);
    proof {
        if is_symmetric_matrix(n, distances.data@) {
            lemma_edges_cost_what_a_tour_costs(n, distances.data@, state.best_tour.edges@);
        }
        if bb_limit is None && is_symmetric_matrix(n, distances.data@) {
            reveal(bounds_admitted_tours);
            assert(is_optimal(n, distances.data@, state.best_tour.cost.0 as int));
        }
    }
    Some(state.best_tour)
}

/// Solves the instance given by `distances` to the end of the search.
///
/// Returns the best tour found, with its cost; `None` for fewer than three
/// nodes.
pub fn held_karp(distances: &EdgeDataMatrix<Distance>) -> (res: Option<UnTour>)
    requires
        distances.wf(),
        distances_fit(distances.data@, distances.dimension as int),
    ensures
        distances.dimension < 3 ==> res is None,
        distances.dimension >= 3 ==> res is Some,
        res matches Some(tour) ==> {
            &&& tour.edges@ == solve(distances.dimension as int, distances.data@, None).best_edges
            &&& tour.cost.0 == solve(distances.dimension as int, distances.data@, None).best_cost
            &&& is_tour(tour.edges@, distances.dimension as int)
            &&& edges_in_range(tour.edges@, distances.dimension as int)
            &&& tour.cost.0 == raw_cost(distances.dimension as int, distances.data@, tour.edges@)
            &&& 0 <= tour.cost.0 <= DISTANCE_MAX
            &&& tour.cost.0 <= raw_cost(
                distances.dimension as int,
                distances.data@,
                identity_tour(distances.dimension as int),
            )
        },
        res matches Some(tour) ==> (is_symmetric_matrix(
            distances.dimension as int,
            distances.data@,
        ) ==> is_cost_of_a_tour(distances.dimension as int, distances.data@, tour.cost.0 as int)
            && is_optimal(distances.dimension as int, distances.data@, tour.cost.0 as int)),
{
    held_karp_with_limit(distances, None)
}

/// Solving the same instance twice gives the same tour: what
/// [`held_karp_with_limit`] returns is determined by the distances and the
/// limit.
pub proof fn lemma_solving_twice(
    distances: EdgeDataMatrix<Distance>,
    limit: Option<int>,
    first: UnTour,
    second: UnTour,
)
    requires
        first.edges@ == solve(distances.dimension as int, distances.data@, limit).best_edges,
        first.cost.0 == solve(distances.dimension as int, distances.data@, limit).best_cost,
        second.edges@ == solve(distances.dimension as int, distances.data@, limit).best_edges,
        second.cost.0 == solve(distances.dimension as int, distances.data@, limit).best_cost,
    ensures
        first.cost == second.cost,
        first.edges@ == second.edges@,
        first.same_tour(&second),
{
}

/// Changing the labels of two nodes does not change the cost of the
/// solution: where the distances are the same in both directions, the tour
/// that [`held_karp`] returns for an instance and the tour that it returns
/// for the instance with the labels `a` and `b` changed cost the same.
pub proof fn lemma_labels_do_not_matter(
    distances: EdgeDataMatrix<Distance>,
    relabelled: EdgeDataMatrix<Distance>,
    a: int,
    b: int,
    first: UnTour,
    second: UnTour,
)
    requires
        distances.wf(),
        relabelled.wf(),
        distances.dimension >= 3,
        relabelled.dimension == distances.dimension,
        0 <= a < distances.dimension,
        0 <= b < distances.dimension,
        is_symmetric_matrix(distances.dimension as int, distances.data@),
        is_relabelled(distances.dimension as int, distances.data@, relabelled.data@, a, b),
        is_symmetric_matrix(distances.dimension as int, distances.data@) ==> is_cost_of_a_tour(
            distances.dimension as int,
            distances.data@,
            first.cost.0 as int,
        ) && is_optimal(distances.dimension as int, distances.data@, first.cost.0 as int),
        is_symmetric_matrix(relabelled.dimension as int, relabelled.data@) ==> is_cost_of_a_tour(
            relabelled.dimension as int,
            relabelled.data@,
            second.cost.0 as int,
        ) && is_optimal(relabelled.dimension as int, relabelled.data@, second.cost.0 as int),
    ensures
        first.cost == second.cost,
{
    let n = distances.dimension as int;
    assert forall|u: int, v: int| 0 <= u < n && 0 <= v < n implies #[trigger] cell_at(
        n,
        relabelled.data@,
        u,
        v,
    ) == cell_at(n, relabelled.data@, v, u) by {
        let su = swapped(a, b, u);
        let sv = swapped(a, b, v);
        assert(cell_at(n, relabelled.data@, u, v) == cell_at(n, distances.data@, su, sv));
        assert(cell_at(n, relabelled.data@, v, u) == cell_at(n, distances.data@, sv, su));
        assert(cell_at(n, distances.data@, su, sv) == cell_at(n, distances.data@, sv, su));
    }
    lemma_relabelling_keeps_optimum(
        n,
        distances.data@,
        relabelled.data@,
        a,
        b,
        first.cost.0 as int,
        second.cost.0 as int,
    );
}

} // verus!
