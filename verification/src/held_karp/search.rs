//! Depth-first branch and bound over edge states.
//!
//! Every node of the search tree computes a lower bound. Where that does not
//! close the node, the search branches on one edge of the last 1-tree: first
//! with the edge excluded, then with the edge fixed. The edge states and the
//! fixed degrees are changed in place and put back on the way up.

use crate::distance::DISTANCE_MAX;
use crate::distance::Distance;
use crate::distance::ScaledDistance;
use crate::edge::UnEdge;
use crate::edge::UnTour;
use crate::held_karp::bound_laws::scaled_is_exact;
use crate::held_karp::branching::branching_edge;
use crate::held_karp::branching::can_branch_on;
use crate::held_karp::branching::edge_to_branch_on;
use crate::held_karp::branching::lemma_branching_edge_is_available;
use crate::held_karp::edge_state::EdgeState;
use crate::held_karp::lower_bound::BETA_PERCENT;
use crate::held_karp::lower_bound::BoundOutcome;
use crate::held_karp::lower_bound::BoundProblem;
use crate::held_karp::lower_bound::INITIAL_BETA_PERCENT;
use crate::held_karp::lower_bound::INITIAL_MAX_ITERATIONS;
use crate::held_karp::lower_bound::LowerBoundOutput;
use crate::held_karp::lower_bound::MAX_ITERATIONS;
use crate::held_karp::lower_bound::distances_fit;
use crate::held_karp::lower_bound::edges_in_range;
use crate::held_karp::lower_bound::held_karp_lower_bound;
use crate::held_karp::lower_bound::lower_bound;
use crate::held_karp::lower_bound::raw_cost;
use crate::held_karp::one_tree_laws::bounds_admitted_tours;
use crate::held_karp::one_tree_laws::cell_at;
use crate::held_karp::one_tree_laws::is_symmetric_matrix;
use crate::held_karp::search_laws::degrees_counted;
use crate::held_karp::search_laws::lemma_both_branches;
use crate::held_karp::search_laws::lemma_degrees_after_excluding;
use crate::held_karp::search_laws::lemma_degrees_after_fixing;
use crate::held_karp::search_laws::lemma_full_node_closes_branch;
use crate::held_karp::search_laws::lemma_no_tour_to_bound;
use crate::held_karp::search_laws::lemma_nothing_to_branch_on;
use crate::held_karp::search_laws::lemma_smaller_bounds;
use crate::held_karp::tours::is_tour;
use crate::matrix::EdgeDataMatrix;
use crate::matrix::lemma_cell_in_range;
use vstd::prelude::*;

verus! {

/// The number of `Available` cells in `states`.
pub open spec fn available_count(states: Seq<EdgeState>) -> nat
    decreases states.len(),
{
    if states.len() == 0 {
        0
    } else {
        available_count(states.drop_last()) + if states.last() == EdgeState::Available {
            1nat
        } else {
            0nat
        }
    }
}

/// Writing one cell changes the number of `Available` cells by what the
/// cell held and what it holds now.
pub proof fn lemma_available_count_update(states: Seq<EdgeState>, i: int, state: EdgeState)
    requires
        0 <= i < states.len(),
    ensures
        available_count(states.update(i, state)) + if states[i] == EdgeState::Available {
            1nat
        } else {
            0nat
        } == available_count(states) + if state == EdgeState::Available {
            1nat
        } else {
            0nat
        },
    decreases states.len(),
{
    let updated = states.update(i, state);
    if i == states.len() - 1 {
        assert(updated.drop_last() =~= states.drop_last());
    } else {
        assert(updated.drop_last() =~= states.drop_last().update(i, state));
        lemma_available_count_update(states.drop_last(), i, state);
    }
}

/// The edge states with both cells of `edge` set to `state`.
pub open spec fn with_state(
    dimension: int,
    states: Seq<EdgeState>,
    edge: UnEdge,
    state: EdgeState,
) -> Seq<EdgeState> {
    states.update(edge.from.0 * dimension + edge.to.0, state).update(
        edge.to.0 * dimension + edge.from.0,
        state,
    )
}

/// Deciding an edge that was `Available` leaves fewer `Available` cells.
pub proof fn lemma_deciding_an_edge(
    dimension: int,
    states: Seq<EdgeState>,
    edge: UnEdge,
    state: EdgeState,
)
    requires
        can_branch_on(dimension, states, edge),
        state != EdgeState::Available,
    ensures
        available_count(with_state(dimension, states, edge, state)) < available_count(states),
        with_state(dimension, states, edge, state).len() == states.len(),
{
    lemma_cell_in_range(edge.from.0 as int, edge.to.0 as int, dimension);
    lemma_cell_in_range(edge.to.0 as int, edge.from.0 as int, dimension);
    let first = states.update(edge.from.0 * dimension + edge.to.0, state);
    lemma_available_count_update(states, edge.from.0 * dimension + edge.to.0, state);
    lemma_available_count_update(first, edge.to.0 * dimension + edge.from.0, state);
}

/// What the search is given and never changes.
pub struct SearchProblem {
    pub dimension: int,
    pub distances: Seq<Distance>,
    pub scaled_distances: Seq<ScaledDistance>,
    /// The number of search nodes after which the search gives up, if any.
    pub limit: Option<int>,
}

/// What the search carries from node to node and does not put back.
pub struct Progress {
    pub penalties: Seq<ScaledDistance>,
    pub best_edges: Seq<UnEdge>,
    pub best_cost: int,
    /// The number of search nodes entered so far.
    pub counter: int,
}

/// The lower bound problem of a search node.
pub open spec fn bound_problem(
    sp: SearchProblem,
    states: Seq<EdgeState>,
    upper_bound: int,
    at_root: bool,
) -> BoundProblem {
    BoundProblem {
        dimension: sp.dimension,
        distances: sp.distances,
        scaled_distances: sp.scaled_distances,
        states,
        upper_bound,
        max_iterations: if at_root {
            INITIAL_MAX_ITERATIONS as int
        } else {
            MAX_ITERATIONS as int
        },
        beta_percent: if at_root {
            INITIAL_BETA_PERCENT as int
        } else {
            BETA_PERCENT as int
        },
    }
}

/// The fixed degrees with one more fixed edge at both ends of `edge`.
pub open spec fn with_fixed_edge(fixed: Seq<u32>, edge: UnEdge) -> Seq<u32> {
    let first = fixed.update(edge.from.0 as int, (fixed[edge.from.0 as int] + 1) as u32);
    first.update(edge.to.0 as int, (first[edge.to.0 as int] + 1) as u32)
}

/// The search below one node, and what it leaves behind.
///
/// The node counts itself and gives up at the limit. Otherwise it computes
/// its lower bound. A tour found becomes the best tour. An infeasible node,
/// a bound that reaches the cost of the best tour, and a 1-tree without an
/// `Available` edge close the node. Otherwise the search goes on with the
/// branching edge excluded, and then, unless one of its ends already has
/// two fixed edges, with the branching edge fixed.
pub open spec fn explore(
    sp: SearchProblem,
    states: Seq<EdgeState>,
    fixed: Seq<u32>,
    progress: Progress,
    at_root: bool,
) -> Progress
    decreases available_count(states),
{
    let counter = if progress.counter < usize::MAX {
        progress.counter + 1
    } else {
        progress.counter
    };
    let at_limit = match sp.limit {
        Some(limit) => counter >= limit,
        None => false,
    };
    if at_limit {
        Progress { counter, ..progress }
    } else {
        let run = lower_bound(
            bound_problem(sp, states, progress.best_cost, at_root),
            progress.penalties,
        );
        let arrived = Progress { counter, penalties: run.penalties, ..progress };
        match run.outcome {
            BoundOutcome::Infeasible => arrived,
            BoundOutcome::Tour { edges, cost } => Progress {
                best_edges: edges,
                best_cost: cost,
                ..arrived
            },
            BoundOutcome::LowerBound { bound, edges } => {
                if bound >= progress.best_cost {
                    arrived
                } else {
                    match branching_edge(
                        sp.dimension,
                        sp.scaled_distances,
                        states,
                        run.penalties,
                        edges,
                    ) {
                        None => arrived,
                        Some(edge) => {
                            proof {
                                lemma_branching_edge_is_available(
                                    sp.dimension,
                                    sp.scaled_distances,
                                    states,
                                    run.penalties,
                                    edges,
                                    edges.len() as int,
                                );
                                lemma_deciding_an_edge(
                                    sp.dimension,
                                    states,
                                    edge,
                                    EdgeState::Excluded,
                                );
                                lemma_deciding_an_edge(
                                    sp.dimension,
                                    states,
                                    edge,
                                    EdgeState::Fixed,
                                );
                            }
                            let without = explore(
                                sp,
                                with_state(sp.dimension, states, edge, EdgeState::Excluded),
                                fixed,
                                arrived,
                                false,
                            );
                            if fixed[edge.from.0 as int] < 2 && fixed[edge.to.0 as int] < 2 {
                                explore(
                                    sp,
                                    with_state(sp.dimension, states, edge, EdgeState::Fixed),
                                    with_fixed_edge(fixed, edge),
                                    without,
                                    false,
                                )
                            } else {
                                without
                            }
                        },
                    }
                }
            },
        }
    }
}

/// Whether the matrix of edge states holds the same state for `(r, c)` and
/// `(c, r)`.
#[verifier::opaque]
pub open spec fn states_symmetric(edge_states: &EdgeDataMatrix<EdgeState>) -> bool {
    forall|r: int, c: int|
        0 <= r < edge_states.dimension && 0 <= c < edge_states.dimension
            ==> #[trigger] edge_states.entry(r, c) == edge_states.entry(c, r)
}

/// Whether no node has more than two fixed edges.
#[verifier::opaque]
pub open spec fn degrees_bounded(fixed: Seq<u32>) -> bool {
    forall|v: int| 0 <= v < fixed.len() ==> #[trigger] fixed[v] <= 2
}

/// Everything the search changes on its way.
#[derive(Debug)]
pub struct SearchState {
    pub edge_states: EdgeDataMatrix<EdgeState>,
    pub node_penalties: Vec<ScaledDistance>,
    /// For each node, the number of `Fixed` edges at it.
    pub fixed_degrees: Vec<u32>,
    pub best_tour: UnTour,
    /// The number of search nodes entered so far.
    pub bb_counter: usize,
}

impl SearchState {
    /// What the search carries from node to node.
    pub open spec fn progress(&self) -> Progress {
        Progress {
            penalties: self.node_penalties@,
            best_edges: self.best_tour.edges@,
            best_cost: self.best_tour.cost.0 as int,
            counter: self.bb_counter as int,
        }
    }

    /// The state goes with the distance matrix `distances`: the edge states
    /// are symmetric, no node has more than two fixed edges, and the best
    /// tour has one edge per node and the cost of its edges.
    pub open spec fn wf(&self, distances: &EdgeDataMatrix<Distance>) -> bool {
        &&& self.edge_states.wf()
        &&& self.edge_states.dimension == distances.dimension
        &&& states_symmetric(&self.edge_states)
        &&& self.node_penalties@.len() == distances.dimension
        &&& self.fixed_degrees@.len() == distances.dimension
        &&& degrees_bounded(self.fixed_degrees@)
        &&& self.best_tour.edges@.len() == distances.dimension
        &&& is_tour(self.best_tour.edges@, distances.dimension as int)
        &&& edges_in_range(self.best_tour.edges@, distances.dimension as int)
        &&& 0 <= self.best_tour.cost.0 <= DISTANCE_MAX
        &&& self.best_tour.cost.0 == raw_cost(
            distances.dimension as int,
            distances.data@,
            self.best_tour.edges@,
        )
    }
}

/// The limit on the number of search nodes as a mathematical integer.
pub open spec fn spec_limit(bb_limit: Option<usize>) -> Option<int> {
    match bb_limit {
        Some(limit) => Some(limit as int),
        None => None,
    }
}

/// Taking the decision on an `Available` edge back gives the edge states
/// from before the decision.
pub proof fn lemma_taking_back(
    edge_states: &EdgeDataMatrix<EdgeState>,
    edge: UnEdge,
    state: EdgeState,
)
    requires
        edge_states.wf(),
        states_symmetric(edge_states),
        can_branch_on(edge_states.dimension as int, edge_states.data@, edge),
    ensures
        with_state(
            edge_states.dimension as int,
            with_state(edge_states.dimension as int, edge_states.data@, edge, state),
            edge,
            EdgeState::Available,
        ) == edge_states.data@,
{
    reveal(states_symmetric);
    let n = edge_states.dimension as int;
    lemma_cell_in_range(edge.from.0 as int, edge.to.0 as int, n);
    lemma_cell_in_range(edge.to.0 as int, edge.from.0 as int, n);
    assert(edge_states.entry(edge.to.0 as int, edge.from.0 as int) == edge_states.entry(
        edge.from.0 as int,
        edge.to.0 as int,
    ));
    assert(with_state(n, with_state(n, edge_states.data@, edge, state), edge, EdgeState::Available)
        =~= edge_states.data@);
}

/// Sets the state of `edge`, in both directions.
fn set_edge_state(edge_states: &mut EdgeDataMatrix<EdgeState>, edge: UnEdge, state: EdgeState)
    requires
        old(edge_states).wf(),
        states_symmetric(old(edge_states)),
        edge.from.0 < old(edge_states).dimension,
        edge.to.0 < old(edge_states).dimension,
    ensures
        final(edge_states).wf(),
        final(edge_states).dimension == old(edge_states).dimension,
        states_symmetric(final(edge_states)),
        final(edge_states).data@ == with_state(
            old(edge_states).dimension as int,
            old(edge_states).data@,
            edge,
            state,
        ),
{
    proof {
        reveal(states_symmetric);
    }
    edge_states.set_data_symmetric(edge.from, edge.to, state);
}

/// Counts one more fixed edge at both ends of `edge`.
fn count_fixed_edge(fixed_degrees: &mut Vec<u32>, edge: UnEdge)
    requires
        degrees_bounded(old(fixed_degrees)@),
        edge.from.0 < old(fixed_degrees)@.len(),
        edge.to.0 < old(fixed_degrees)@.len(),
        edge.from.0 != edge.to.0,
        old(fixed_degrees)@[edge.from.0 as int] < 2,
        old(fixed_degrees)@[edge.to.0 as int] < 2,
    ensures
        degrees_bounded(final(fixed_degrees)@),
        final(fixed_degrees)@ == with_fixed_edge(old(fixed_degrees)@, edge),
{
    proof {
        reveal(degrees_bounded);
    }
    let at_from = fixed_degrees[edge.from.0];
    fixed_degrees[edge.from.0] = at_from + 1;
    let at_to = fixed_degrees[edge.to.0];
    fixed_degrees[edge.to.0] = at_to + 1;
}

/// Counts one fixed edge less at both ends of `edge`.
fn uncount_fixed_edge(fixed_degrees: &mut Vec<u32>, edge: UnEdge, Ghost(before): Ghost<Seq<u32>>)
    requires
        degrees_bounded(before),
        edge.from.0 < before.len(),
        edge.to.0 < before.len(),
        edge.from.0 != edge.to.0,
        before[edge.from.0 as int] < 2,
        before[edge.to.0 as int] < 2,
        old(fixed_degrees)@ == with_fixed_edge(before, edge),
    ensures
        final(fixed_degrees)@ == before,
{
    let at_from = fixed_degrees[edge.from.0];
    fixed_degrees[edge.from.0] = at_from - 1;
    let at_to = fixed_degrees[edge.to.0];
    fixed_degrees[edge.to.0] = at_to - 1;
    proof {
        assert(fixed_degrees@ =~= before);
    }
}

/// Whether the search is run so that it loses no tour: on three nodes or
/// more, with scaled distances that are 32 times the distances and the same
/// in both directions, and without a limit.
pub open spec fn is_sound_search(
    distances: &EdgeDataMatrix<Distance>,
    scaled_distances: &EdgeDataMatrix<ScaledDistance>,
    bb_limit: Option<usize>,
) -> bool {
    &&& distances.dimension >= 3
    &&& scaled_is_exact(distances.data@, scaled_distances.data@)
    &&& is_symmetric_matrix(
        distances.dimension as int,
        scaled_distances.data@,
    )
    &&& bb_limit is None
}

/// Symmetric edge states are symmetric as a matrix of cells.
pub proof fn lemma_states_are_symmetric(edge_states: &EdgeDataMatrix<EdgeState>)
    requires
        edge_states.wf(),
        states_symmetric(edge_states),
    ensures
        is_symmetric_matrix(
            edge_states.dimension as int,
            edge_states.data@,
        ),
{
    reveal(states_symmetric);
    let n = edge_states.dimension as int;
    assert forall|u: int, v: int| 0 <= u < n && 0 <= v < n implies #[trigger]
        cell_at(n, edge_states.data@, u, v)
        == cell_at(n, edge_states.data@, v, u) by {
        assert(edge_states.entry(u, v) == edge_states.entry(v, u));
    }
}

/// Explores the search tree below one node, depth first.
///
/// On return the edge states and the fixed degrees are what they were; the
/// penalties, the best tour and the node counter are what the search left.
pub fn explore_node(
    distances: &EdgeDataMatrix<Distance>,
    scaled_distances: &EdgeDataMatrix<ScaledDistance>,
    state: &mut SearchState,
    bb_limit: Option<usize>,
    depth: usize,
)
    requires
        distances.wf(),
        scaled_distances.wf(),
        distances.dimension >= 2,
        scaled_distances.dimension == distances.dimension,
        distances_fit(distances.data@, distances.dimension as int),
        old(state).wf(distances),
    ensures
        final(state).wf(distances),
        final(state).edge_states.data@ == old(state).edge_states.data@,
        final(state).fixed_degrees@ == old(state).fixed_degrees@,
        final(state).progress() == explore(
            SearchProblem {
                dimension: distances.dimension as int,
                distances: distances.data@,
                scaled_distances: scaled_distances.data@,
                limit: spec_limit(bb_limit),
            },
            old(state).edge_states.data@,
            old(state).fixed_degrees@,
            old(state).progress(),
            depth == 0,
        ),
        scaled_is_exact(distances.data@, scaled_distances.data@)
            ==> final(state).best_tour.cost.0 <= old(state).best_tour.cost.0,
        is_sound_search(distances, scaled_distances, bb_limit)
            && degrees_counted(
            distances.dimension as int,
            old(state).edge_states.data@,
            old(state).fixed_degrees@,
        ) ==> bounds_admitted_tours(
            distances.dimension as int,
            distances.data@,
            old(state).edge_states.data@,
            final(state).best_tour.cost.0 as int,
        ),
    decreases available_count(old(state).edge_states.data@),
{
    let ghost n = distances.dimension as int;
    let ghost states = state.edge_states.data@;
    let ghost fixed = state.fixed_degrees@;
    let ghost before = state.edge_states;
    let ghost sound = is_sound_search(distances, scaled_distances, bb_limit)
        && degrees_counted(n, states, fixed);
    proof {
        lemma_states_are_symmetric(&state.edge_states);
    }
    if state.bb_counter < usize::MAX {
        state.bb_counter = state.bb_counter + 1;
    }
    if let Some(limit) = bb_limit {
        if state.bb_counter >= limit {
            return ;
        }
    }
    let (max_iterations, beta_percent) = if depth == 0 {
        (INITIAL_MAX_ITERATIONS, INITIAL_BETA_PERCENT)
    } else {
        (MAX_ITERATIONS, BETA_PERCENT)
    };
    let upper_bound = state.best_tour.cost;
    let one_tree = match held_karp_lower_bound(
        distances,
        scaled_distances,
        &state.edge_states,
        &mut state.node_penalties,
        upper_bound,
        max_iterations,
        beta_percent,
    ) {
        None => {
            proof {
                if sound {
                    lemma_no_tour_to_bound(
                        n,
                        distances.data@,
                        states,
                        upper_bound.0 as int,
                    );
                }
            }
            return ;
        },
        Some(LowerBoundOutput::Tour(tour)) => {
            state.best_tour = tour;
            return ;
        },
        Some(LowerBoundOutput::LowerBound(lower_bound, one_tree)) => {
            if lower_bound.0 >= upper_bound.0 {
                proof {
                    if sound {
                        lemma_smaller_bounds(
                            n,
                            distances.data@,
                            states,
                            lower_bound.0 as int,
                            upper_bound.0 as int,
                        );
                    }
                }
                return ;
            }
            one_tree
        },
    };
    let edge = match edge_to_branch_on(
        scaled_distances,
        &state.edge_states,
        &state.node_penalties,
        &one_tree,
    ) {
        None => {
            proof {
                if sound {
                    lemma_nothing_to_branch_on(
                        n,
                        distances.data@,
                        states,
                        one_tree@,
                        upper_bound.0 as int,
                    );
                }
            }
            return ;
        },
        Some(edge) => edge,
    };
    let deeper = if depth == usize::MAX {
        depth
    } else {
        depth + 1
    };
    proof {
        let at = choose|i: int| 0 <= i < one_tree@.len() && #[trigger] one_tree@[i] == edge;
        assert(one_tree@[at].from.0 != one_tree@[at].to.0);
        lemma_deciding_an_edge(n, states, edge, EdgeState::Excluded);
        lemma_deciding_an_edge(n, states, edge, EdgeState::Fixed);
        lemma_taking_back(&before, edge, EdgeState::Excluded);
        lemma_taking_back(&before, edge, EdgeState::Fixed);
        lemma_cell_in_range(edge.from.0 as int, edge.to.0 as int, n);
        lemma_cell_in_range(edge.to.0 as int, edge.from.0 as int, n);
        assert(cell_at(
            n,
            states,
            edge.from.0 as int,
            edge.to.0 as int,
        ) == cell_at(
            n,
            states,
            edge.to.0 as int,
            edge.from.0 as int,
        ));
        if sound {
            lemma_degrees_after_excluding(n, states, edge, fixed);
        }
    }
    set_edge_state(&mut state.edge_states, edge, EdgeState::Excluded);
    explore_node(distances, scaled_distances, state, bb_limit, deeper);
    let ghost without = state.best_tour.cost.0 as int;
    set_edge_state(&mut state.edge_states, edge, EdgeState::Available);
    if state.fixed_degrees[edge.from.0] < 2 && state.fixed_degrees[edge.to.0] < 2 {
        proof {
            if sound {
                lemma_degrees_after_fixing(n, states, edge, fixed);
            }
        }
        set_edge_state(&mut state.edge_states, edge, EdgeState::Fixed);
        count_fixed_edge(&mut state.fixed_degrees, edge);
        explore_node(distances, scaled_distances, state, bb_limit, deeper);
        set_edge_state(&mut state.edge_states, edge, EdgeState::Available);
        uncount_fixed_edge(&mut state.fixed_degrees, edge, Ghost(fixed));
        proof {
            if sound {
                lemma_both_branches(
                    n,
                    distances.data@,
                    states,
                    edge,
                    without,
                    state.best_tour.cost.0 as int,
                );
            }
        }
    } else {
        proof {
            if sound {
                lemma_full_node_closes_branch(
                    n,
                    distances.data@,
                    states,
                    edge,
                    fixed,
                    without,
                );
            }
        }
    }
}

/// A tour found by the lower bound of a search node becomes the best tour:
/// unless the node gives up at the limit, the search leaves the edges and
/// the cost of that tour.
pub proof fn lemma_tour_found_becomes_best(
    sp: SearchProblem,
    states: Seq<EdgeState>,
    fixed: Seq<u32>,
    progress: Progress,
    at_root: bool,
    edges: Seq<UnEdge>,
    cost: int,
)
    requires
        progress.counter < usize::MAX,
        sp.limit matches Some(limit) ==> progress.counter + 1 < limit,
        lower_bound(
            bound_problem(sp, states, progress.best_cost, at_root),
            progress.penalties,
        ).outcome == (BoundOutcome::Tour { edges, cost }),
    ensures
        explore(sp, states, fixed, progress, at_root).best_edges == edges,
        explore(sp, states, fixed, progress, at_root).best_cost == cost,
{
}

} // verus!
