use tsp_rust::distance::Distance;
use tsp_rust::distance::ScaledDistance;
use tsp_rust::edge::UnEdge;
use tsp_rust::held_karp::branching::edge_to_branch_on;
use tsp_rust::held_karp::branching::initial_penalties;
use tsp_rust::held_karp::edge_state::EdgeState;
use tsp_rust::held_karp::held_karp;
use tsp_rust::held_karp::identity_tour_edges;
use tsp_rust::held_karp::lower_bound::bound_of;
use tsp_rust::held_karp::lower_bound::cost_of_edges;
use tsp_rust::held_karp::lower_bound::degree_deviations;
use tsp_rust::held_karp::lower_bound::held_karp_lower_bound;
use tsp_rust::held_karp::lower_bound::move_penalties;
use tsp_rust::held_karp::lower_bound::penalties_can_move;
use tsp_rust::held_karp::lower_bound::penalty_total;
use tsp_rust::held_karp::lower_bound::reduced_cost_of_tree;
use tsp_rust::held_karp::lower_bound::square_sum;
use tsp_rust::held_karp::lower_bound::step_size;
use tsp_rust::held_karp::lower_bound::LowerBoundOutput;
use tsp_rust::held_karp::lower_bound::BETA_PERCENT;
use tsp_rust::held_karp::lower_bound::INITIAL_ALPHA;
use tsp_rust::held_karp::lower_bound::INITIAL_BETA_PERCENT;
use tsp_rust::held_karp::lower_bound::INITIAL_MAX_ITERATIONS;
use tsp_rust::held_karp::lower_bound::MAX_ITERATIONS;
use tsp_rust::held_karp::scale_distances;
use tsp_rust::held_karp::search::explore_node;
use tsp_rust::held_karp::search::SearchState;
use tsp_rust::held_karp::trees::min_one_tree;
use tsp_rust::matrix::EdgeDataMatrix;
use tsp_rust::node::Node;

fn matrix_from(points: &[(i32, i32)]) -> EdgeDataMatrix<Distance> {
    let n = points.len();
    let mut data = Vec::with_capacity(n * n);
    for a in points {
        for b in points {
            data.push(Distance((a.0 - b.0).abs() + (a.1 - b.1).abs()));
        }
    }
    EdgeDataMatrix::new(data, n)
}

fn edge(from: usize, to: usize) -> UnEdge {
    UnEdge::new(Node(from), Node(to))
}

#[test]
fn schedule_has_its_values() {
    assert_eq!(INITIAL_ALPHA, 2 << 32);
    assert_eq!(INITIAL_MAX_ITERATIONS, 1000);
    assert_eq!(MAX_ITERATIONS, 10);
    assert_eq!(INITIAL_BETA_PERCENT, 99);
    assert_eq!(BETA_PERCENT, 90);
}

#[test]
fn step_is_alpha_times_gap_by_squares_rounded_down() {
    assert_eq!(step_size(INITIAL_ALPHA, 100, 7), 28);
    assert_eq!(step_size(INITIAL_ALPHA, 7, 2), 7);
    assert_eq!(step_size(3 << 31, 10, 4), 3);
    assert_eq!(step_size(0, 1000, 1), 0);
    assert_eq!(step_size(INITIAL_ALPHA, 1 << 40, 1), i32::MAX);
}

#[test]
fn bound_is_the_scaled_value_rounded_up() {
    assert_eq!(bound_of(224), Distance(7));
    assert_eq!(bound_of(225), Distance(8));
    assert_eq!(bound_of(0), Distance(0));
    assert_eq!(bound_of(-33), Distance(-1));
    assert_eq!(bound_of(i128::MAX), Distance(i32::MAX));
    assert_eq!(bound_of(i128::MIN), Distance(i32::MIN));
}

#[test]
fn sums_over_penalties_and_edges() {
    let penalties = vec![
        ScaledDistance(i32::MAX),
        ScaledDistance(i32::MAX),
        ScaledDistance(-3),
    ];
    assert_eq!(penalty_total(&penalties), 2 * (i32::MAX as i128) - 3);

    let distances = matrix_from(&[(0, 0), (0, 3), (4, 3), (4, 0)]);
    let scaled = scale_distances(&distances);
    assert_eq!(scaled.get_data(Node(0), Node(2)), ScaledDistance(7 * 32));
    let tree = vec![edge(1, 2), edge(2, 3), edge(0, 1), edge(0, 3)];
    let penalties = vec![
        ScaledDistance(1),
        ScaledDistance(2),
        ScaledDistance(3),
        ScaledDistance(4),
    ];
    // Every node has degree 2, so twice the sum of the penalties is taken off.
    assert_eq!(reduced_cost_of_tree(&scaled, &penalties, &tree), 14 * 32 - 20);
    assert_eq!(cost_of_edges(&distances, &tree), Distance(14));
}

#[test]
fn deviations_are_two_less_the_degree() {
    let star = vec![edge(1, 2), edge(1, 3), edge(0, 1), edge(0, 2)];
    let deviation = degree_deviations(&star, 4);
    assert_eq!(deviation, vec![0, -1, 0, 1]);
    assert_eq!(square_sum(&deviation, star.len()), 2);
    let tour = vec![edge(1, 2), edge(2, 3), edge(0, 1), edge(0, 3)];
    let deviation = degree_deviations(&tour, 4);
    assert_eq!(deviation, vec![0, 0, 0, 0]);
    assert_eq!(square_sum(&deviation, tour.len()), 0);
}

#[test]
fn penalties_move_by_step_times_deviation() {
    let mut penalties = vec![
        ScaledDistance(10),
        ScaledDistance(20),
        ScaledDistance(30),
        ScaledDistance(i32::MAX - 5),
    ];
    let deviation = vec![0, -1, 2, 1];
    assert!(penalties_can_move(&penalties, &deviation, 5));
    assert!(!penalties_can_move(&penalties, &deviation, 6));
    move_penalties(&mut penalties, &deviation, 5);
    assert_eq!(
        penalties,
        vec![
            ScaledDistance(10),
            ScaledDistance(15),
            ScaledDistance(40),
            ScaledDistance(i32::MAX),
        ]
    );
}

#[test]
fn search_starts_from_half_the_nearest_distance() {
    let mut scaled = EdgeDataMatrix::new_from_dimension_with_value(3, ScaledDistance(0));
    scaled.set_data_symmetric(Node(0), Node(1), ScaledDistance(64));
    scaled.set_data_symmetric(Node(0), Node(2), ScaledDistance(31));
    scaled.set_data_symmetric(Node(1), Node(2), ScaledDistance(-7));
    assert_eq!(
        initial_penalties(&scaled, 3),
        vec![ScaledDistance(15), ScaledDistance(-3), ScaledDistance(-3)]
    );
    let lonely = EdgeDataMatrix::new_from_dimension_with_value(1, ScaledDistance(5));
    assert_eq!(initial_penalties(&lonely, 1), vec![ScaledDistance(i32::MAX / 2)]);
}

#[test]
fn branching_takes_the_cheapest_available_edge() {
    let distances = matrix_from(&[(0, 0), (0, 3), (4, 3), (4, 0)]);
    let scaled = scale_distances(&distances);
    let mut states = EdgeDataMatrix::new_from_dimension_with_value(4, EdgeState::Available);
    let penalties = vec![ScaledDistance(0); 4];
    let tree = vec![edge(1, 2), edge(2, 3), edge(0, 1), edge(0, 3)];
    // The edges cost 4, 3, 3 and 4; the first of the two cheapest is taken.
    assert_eq!(edge_to_branch_on(&scaled, &states, &penalties, &tree), Some(edge(2, 3)));
    states.set_data_symmetric(Node(2), Node(3), EdgeState::Fixed);
    assert_eq!(edge_to_branch_on(&scaled, &states, &penalties, &tree), Some(edge(0, 1)));
    let penalised = vec![
        ScaledDistance(0),
        ScaledDistance(40),
        ScaledDistance(40),
        ScaledDistance(0),
    ];
    assert_eq!(edge_to_branch_on(&scaled, &states, &penalised, &tree), Some(edge(1, 2)));
    for (from, to) in [(1, 2), (0, 1), (0, 3)] {
        states.set_data_symmetric(Node(from), Node(to), EdgeState::Fixed);
    }
    assert_eq!(edge_to_branch_on(&scaled, &states, &penalties, &tree), None);
}

#[test]
fn lower_bound_tells_its_three_outcomes_apart() {
    let distances = matrix_from(&[(0, 0), (0, 3), (4, 3), (4, 0)]);
    let scaled = scale_distances(&distances);
    let available = EdgeDataMatrix::new_from_dimension_with_value(4, EdgeState::Available);

    // The first 1-tree is the square, which is a tour of cost 14.
    let mut penalties = vec![ScaledDistance(0); 4];
    let found = held_karp_lower_bound(
        &distances,
        &scaled,
        &available,
        &mut penalties,
        Distance(20),
        10,
        90,
    );
    match found {
        Some(LowerBoundOutput::Tour(tour)) => {
            assert_eq!(tour.cost, Distance(14));
            assert_eq!(tour.edges.len(), 4);
        }
        other => panic!("expected a tour, got {:?}", other),
    }
    assert_eq!(penalties, vec![ScaledDistance(0); 4]);

    // With an upper bound that the 1-tree reaches, the bound is all there is.
    let mut penalties = vec![ScaledDistance(0); 4];
    let found = held_karp_lower_bound(
        &distances,
        &scaled,
        &available,
        &mut penalties,
        Distance(14),
        10,
        90,
    );
    match found {
        Some(LowerBoundOutput::LowerBound(bound, tree)) => {
            assert_eq!(bound, Distance(14));
            assert_eq!(tree.len(), 4);
        }
        other => panic!("expected a bound, got {:?}", other),
    }

    let excluded = EdgeDataMatrix::new_from_dimension_with_value(4, EdgeState::Excluded);
    let mut penalties = vec![ScaledDistance(0); 4];
    let found = held_karp_lower_bound(
        &distances,
        &scaled,
        &excluded,
        &mut penalties,
        Distance(20),
        10,
        90,
    );
    assert!(found.is_none());
}

fn brute_force(matrix: &EdgeDataMatrix<Distance>) -> i32 {
    fn go(
        items: &mut Vec<usize>,
        k: usize,
        best: &mut i32,
        matrix: &EdgeDataMatrix<Distance>,
    ) {
        let n = items.len();
        if k == n {
            let cost: i32 = (0..n)
                .map(|i| matrix.get_data(Node(items[i]), Node(items[(i + 1) % n])).0)
                .sum();
            *best = (*best).min(cost);
            return;
        }
        for i in k..n {
            items.swap(k, i);
            go(items, k + 1, best, matrix);
            items.swap(k, i);
        }
    }
    let mut items: Vec<usize> = (0..matrix.dimension).collect();
    let mut best = i32::MAX;
    go(&mut items, 1, &mut best, matrix);
    best
}

#[test]
fn one_tree_bounds_the_optimum_whatever_the_penalties() {
    let points = [(3, 1), (9, 4), (1, 8), (7, 7), (4, 4), (0, 2), (6, 0)];
    let distances = matrix_from(&points);
    let scaled = scale_distances(&distances);
    let states = EdgeDataMatrix::new_from_dimension_with_value(7, EdgeState::Available);
    let optimum = brute_force(&distances) as i128;
    let penalty_sets = [
        vec![0, 0, 0, 0, 0, 0, 0],
        vec![50, -20, 10, 0, 35, -60, 5],
        vec![-100, -100, -100, 300, 0, 17, 64],
    ];
    for set in penalty_sets {
        let penalties: Vec<ScaledDistance> = set.iter().map(|p| ScaledDistance(*p)).collect();
        let tree = min_one_tree(&scaled, &states, &penalties).unwrap();
        let value =
            2 * penalty_total(&penalties) + reduced_cost_of_tree(&scaled, &penalties, &tree);
        assert!(value <= 32 * optimum);
    }
}

#[test]
fn changing_labels_keeps_the_optimum() {
    let points = [(3, 1), (9, 4), (1, 8), (7, 7), (4, 4), (0, 2), (6, 0)];
    let cost = held_karp(&matrix_from(&points)).unwrap().cost;
    for (a, b) in [(0, 3), (2, 5), (1, 6)] {
        let mut changed = points;
        changed.swap(a, b);
        assert_eq!(held_karp(&matrix_from(&changed)).unwrap().cost, cost);
    }
    assert_eq!(cost.0, brute_force(&matrix_from(&points)));
}

#[test]
fn search_puts_states_and_degrees_back() {
    let distances = matrix_from(&[(0, 0), (5, 1), (1, 4), (6, 6), (2, 2), (9, 3)]);
    let scaled = scale_distances(&distances);
    let edges = identity_tour_edges(6);
    let cost = cost_of_edges(&distances, &edges);
    let mut state = SearchState {
        edge_states: EdgeDataMatrix::new_from_dimension_with_value(6, EdgeState::Available),
        node_penalties: initial_penalties(&scaled, 6),
        fixed_degrees: vec![0; 6],
        best_tour: tsp_rust::edge::UnTour { edges, cost },
        bb_counter: 0,
    };
    explore_node(&distances, &scaled, &mut state, None, 0);
    assert!(state.edge_states.data.iter().all(|s| *s == EdgeState::Available));
    assert_eq!(state.fixed_degrees, vec![0; 6]);
    assert!(state.bb_counter >= 1);
    assert_eq!(state.best_tour.cost.0, brute_force(&distances));
    assert!(state.best_tour.cost <= cost);
}
