use tsp_rust::distance::ScaledDistance;
use tsp_rust::edge::UnEdge;
use tsp_rust::held_karp::edge_state::EdgeState;
use tsp_rust::held_karp::trees::min_one_tree;
use tsp_rust::held_karp::trees::min_spanning_tree;
use tsp_rust::held_karp::trees::min_spanning_tree_of_all;
use tsp_rust::matrix::EdgeDataMatrix;
use tsp_rust::matrix_sym::EdgeDataMatrixSym;
use tsp_rust::node::Node;

fn chain_distance(from: Node, to: Node) -> ScaledDistance {
    if from.0 + 1 == to.0 || from.0 == to.0 + 1 {
        ScaledDistance(0)
    } else {
        ScaledDistance(1)
    }
}

#[test]
fn trees_test_min_spanning_tree_simple_tree() {
    let dimension = 11;
    let distance_matrix =
        EdgeDataMatrix::slow_new_from_distance_function(dimension, chain_distance);
    let penalties = vec![ScaledDistance(0); dimension];
    let edge_states = EdgeDataMatrix {
        data: vec![EdgeState::Available; distance_matrix.data.len()],
        dimension: distance_matrix.dimension,
    };
    let (_, distance_matrix_rest) = distance_matrix.split_first_row();
    let (_, edge_states_rest) = edge_states.split_first_row();

    let mst = min_spanning_tree(distance_matrix_rest, edge_states_rest, &penalties).unwrap();
    assert_eq!(mst.len(), dimension - 2);
    let expected = (1..dimension)
        .map(|i| UnEdge {
            from: Node(i),
            to: Node(i + 1),
        })
        .collect::<Vec<_>>();
    mst.iter().for_each(|edge| {
        assert!(
            expected.contains(edge),
            "Edge {:?} not in expected MST",
            edge
        );
    });
}

#[test]
fn trees_test_min_spanning_tree_excluded_infeasible() {
    let distance_matrix = EdgeDataMatrix::new_from_dimension_with_value(10, ScaledDistance(0));
    let penalties = vec![ScaledDistance(0); 10];
    let edge_states = EdgeDataMatrix {
        data: vec![EdgeState::Excluded; distance_matrix.data.len()],
        dimension: distance_matrix.dimension,
    };
    let (_, distance_matrix_rest) = distance_matrix.split_first_row();
    let (_, edge_states_rest) = edge_states.split_first_row();

    let mst = min_spanning_tree(distance_matrix_rest, edge_states_rest, &penalties);
    assert_eq!(mst, None);
}

#[test]
fn trees_test_min_spanning_tree_infeasible_node_isolated() {
    let dimension = 6;
    let distance_matrix =
        EdgeDataMatrix::new_from_dimension_with_value(dimension, ScaledDistance(0));
    let penalties = vec![ScaledDistance(0); dimension];
    let mut edge_states =
        EdgeDataMatrix::new_from_dimension_with_value(dimension, EdgeState::Available);
    for from in 0..dimension {
        for to in 0..=from {
            if (from == 2) || (to == 2) {
                edge_states.set_data_symmetric(Node(from), Node(to), EdgeState::Excluded);
            } else if to + 1 == from {
                edge_states.set_data_symmetric(Node(from), Node(to), EdgeState::Fixed);
            } else {
                edge_states.set_data_symmetric(Node(from), Node(to), EdgeState::Available);
            }
        }
    }

    let (_, distance_matrix_rest) = distance_matrix.split_first_row();
    let (_, edge_states_rest) = edge_states.split_first_row();

    let mst = min_spanning_tree(distance_matrix_rest, edge_states_rest, &penalties);
    assert_eq!(mst, None);
}

#[test]
fn trees_test_min_spanning_tree_fixed() {
    let dimension = 6;
    let distance_matrix =
        EdgeDataMatrix::new_from_dimension_with_value(dimension, ScaledDistance(0));
    let penalties = vec![ScaledDistance(0); dimension];
    let mut edge_states =
        EdgeDataMatrix::new_from_dimension_with_value(dimension, EdgeState::Available);
    for from in 0..dimension {
        for to in 0..=from {
            if to + 1 == from {
                edge_states.set_data_symmetric(Node(from), Node(to), EdgeState::Fixed);
            } else {
                edge_states.set_data_symmetric(Node(from), Node(to), EdgeState::Available);
            }
        }
    }

    let (_, distance_matrix_rest) = distance_matrix.split_first_row();
    let (_, edge_states_rest) = edge_states.split_first_row();

    let mst = min_spanning_tree(distance_matrix_rest, edge_states_rest, &penalties).unwrap();
    let expected = vec![
        UnEdge::new(Node(2), Node(3)),
        UnEdge::new(Node(3), Node(4)),
        UnEdge::new(Node(1), Node(2)),
        UnEdge::new(Node(4), Node(5)),
    ];
    assert_eq!(mst.len(), expected.len());
    mst.iter().for_each(|edge| {
        assert!(
            expected.contains(edge),
            "Edge {:?} not in expected MST",
            edge
        );
    });
}

fn chain_matrix_of_all(dimension: usize) -> EdgeDataMatrix<ScaledDistance> {
    EdgeDataMatrixSym::new_from_distance_function(dimension, chain_distance).to_edge_data_matrix()
}

fn all_in_state(dimension: usize, state: EdgeState) -> EdgeDataMatrix<EdgeState> {
    EdgeDataMatrixSym::new_from_dimension_with_value(dimension, state).to_edge_data_matrix()
}

#[test]
fn test_min_spanning_tree() {
    let distance_matrix = chain_matrix_of_all(10);
    let penalties = vec![ScaledDistance(0); 10];
    let edge_states = all_in_state(10, EdgeState::Available);

    let mst = min_spanning_tree_of_all(&distance_matrix, &edge_states, &penalties).unwrap();
    assert_eq!(mst.len(), 9);
    let expected = (0..9)
        .map(|i| UnEdge {
            from: Node(i),
            to: Node(i + 1),
        })
        .collect::<Vec<_>>();
    mst.iter().for_each(|edge| {
        assert!(
            expected.contains(edge),
            "Edge {:?} not in expected MST",
            edge
        );
    });
}

#[test]
fn test_min_spanning_tree_simple_tree() {
    let distance_matrix = chain_matrix_of_all(10);
    let penalties = vec![ScaledDistance(0); 10];
    let edge_states = all_in_state(10, EdgeState::Available);

    let mst = min_spanning_tree_of_all(&distance_matrix, &edge_states, &penalties).unwrap();
    assert_eq!(mst.len(), 9);
    let expected = (0..9)
        .map(|i| UnEdge {
            from: Node(i),
            to: Node(i + 1),
        })
        .collect::<Vec<_>>();
    mst.iter().for_each(|edge| {
        assert!(
            expected.contains(edge),
            "Edge {:?} not in expected MST",
            edge
        );
    });
}

#[test]
fn test_min_spanning_tree_excluded_infeasible() {
    let distance_matrix =
        EdgeDataMatrixSym::new_from_dimension_with_value(10, ScaledDistance(0))
            .to_edge_data_matrix();
    let penalties = vec![ScaledDistance(0); 10];
    let edge_states = all_in_state(10, EdgeState::Excluded);

    let mst = min_spanning_tree_of_all(&distance_matrix, &edge_states, &penalties);
    assert_eq!(mst, None);
}

#[test]
fn test_min_spanning_tree_infeasible_node_isolated() {
    let distance_matrix = EdgeDataMatrixSym::new_from_dimension_with_value(5, ScaledDistance(0))
        .to_edge_data_matrix();
    let penalties = vec![ScaledDistance(0); 5];
    let mut edge_states = Vec::with_capacity(15);
    for from in 0..5 {
        for to in 0..=from {
            if (from == 2) || (to == 2) {
                edge_states.push(EdgeState::Excluded);
            } else if (from + 1 == to) || (to + 1 == from) {
                edge_states.push(EdgeState::Fixed);
            } else {
                edge_states.push(EdgeState::Available);
            }
        }
    }
    let edge_states = EdgeDataMatrixSym {
        data: edge_states,
        dimension: 5,
    }
    .to_edge_data_matrix();

    let mst = min_spanning_tree_of_all(&distance_matrix, &edge_states, &penalties);
    assert_eq!(mst, None);
}

#[test]
fn test_min_spanning_tree_fixed() {
    let distance_matrix = EdgeDataMatrixSym::new_from_dimension_with_value(5, ScaledDistance(0))
        .to_edge_data_matrix();
    let penalties = vec![ScaledDistance(0); 5];
    let mut edge_states = Vec::with_capacity(15);
    for from in 0..5 {
        for to in 0..=from {
            if (from + 1 == to) || (to + 1 == from) {
                edge_states.push(EdgeState::Fixed);
            } else {
                edge_states.push(EdgeState::Available);
            }
        }
    }
    let edge_states = EdgeDataMatrixSym {
        data: edge_states,
        dimension: 5,
    }
    .to_edge_data_matrix();

    let mst = min_spanning_tree_of_all(&distance_matrix, &edge_states, &penalties).unwrap();
    let expected = vec![
        UnEdge::new(Node(0), Node(1)),
        UnEdge::new(Node(1), Node(2)),
        UnEdge::new(Node(2), Node(3)),
        UnEdge::new(Node(3), Node(4)),
    ];
    assert_eq!(mst.len(), expected.len());
    mst.iter().for_each(|edge| {
        assert!(
            expected.contains(edge),
            "Edge {:?} not in expected MST",
            edge
        );
    });
}

#[test]
fn one_tree_of_all_excluded_fails() {
    let distances = EdgeDataMatrix::new_from_dimension_with_value(2, ScaledDistance(0));
    let states = EdgeDataMatrix::new_from_dimension_with_value(2, EdgeState::Excluded);
    let penalties = vec![ScaledDistance(0); 2];
    assert_eq!(min_one_tree(&distances, &states, &penalties), None);
}

#[test]
fn one_tree_takes_two_cheapest_edges_at_node_zero() {
    // Node 0 is at distance 5, 3, 4 from the nodes 1, 2, 3; all other distances are 1.
    let mut distances = EdgeDataMatrix::new_from_dimension_with_value(4, ScaledDistance(1));
    distances.set_data_symmetric(Node(0), Node(1), ScaledDistance(5));
    distances.set_data_symmetric(Node(0), Node(2), ScaledDistance(3));
    distances.set_data_symmetric(Node(0), Node(3), ScaledDistance(4));
    let states = EdgeDataMatrix::new_from_dimension_with_value(4, EdgeState::Available);
    let penalties = vec![ScaledDistance(0); 4];
    let tree = min_one_tree(&distances, &states, &penalties).unwrap();
    assert_eq!(tree.len(), 4);
    assert_eq!(tree[2], UnEdge::new(Node(0), Node(2)));
    assert_eq!(tree[3], UnEdge::new(Node(0), Node(3)));
}

#[test]
fn one_tree_with_three_fixed_edges_at_node_zero_fails() {
    let distances = EdgeDataMatrix::new_from_dimension_with_value(4, ScaledDistance(1));
    let mut states = EdgeDataMatrix::new_from_dimension_with_value(4, EdgeState::Available);
    states.set_data_symmetric(Node(0), Node(1), EdgeState::Fixed);
    states.set_data_symmetric(Node(0), Node(2), EdgeState::Fixed);
    states.set_data_symmetric(Node(0), Node(3), EdgeState::Fixed);
    let penalties = vec![ScaledDistance(0); 4];
    assert_eq!(min_one_tree(&distances, &states, &penalties), None);
}

#[test]
fn spanning_tree_with_a_cycle_of_fixed_edges_fails() {
    let distances = EdgeDataMatrix::new_from_dimension_with_value(5, ScaledDistance(1));
    let mut states = EdgeDataMatrix::new_from_dimension_with_value(5, EdgeState::Available);
    states.set_data_symmetric(Node(1), Node(2), EdgeState::Fixed);
    states.set_data_symmetric(Node(2), Node(3), EdgeState::Fixed);
    states.set_data_symmetric(Node(3), Node(1), EdgeState::Fixed);
    let penalties = vec![ScaledDistance(0); 5];
    let (_, distances_rest) = distances.split_first_row();
    let (_, states_rest) = states.split_first_row();
    assert_eq!(min_spanning_tree(distances_rest, states_rest, &penalties), None);
}

#[test]
fn penalties_change_the_spanning_tree() {
    // Without penalties the star at node 1 is cheapest; a penalty on node 1 makes its
    // edges expensive.
    let mut distances = EdgeDataMatrix::new_from_dimension_with_value(4, ScaledDistance(10));
    distances.set_data_symmetric(Node(1), Node(2), ScaledDistance(2));
    distances.set_data_symmetric(Node(1), Node(3), ScaledDistance(2));
    distances.set_data_symmetric(Node(2), Node(3), ScaledDistance(3));
    let states = EdgeDataMatrix::new_from_dimension_with_value(4, EdgeState::Available);
    let (_, distances_rest) = distances.split_first_row();
    let (_, states_rest) = states.split_first_row();
    let plain = vec![ScaledDistance(0); 4];
    let tree = min_spanning_tree(distances_rest, states_rest, &plain).unwrap();
    assert_eq!(tree, vec![UnEdge::new(Node(1), Node(2)), UnEdge::new(Node(1), Node(3))]);

    let (_, distances_rest) = distances.split_first_row();
    let (_, states_rest) = states.split_first_row();
    let penalised = vec![
        ScaledDistance(0),
        ScaledDistance(-4),
        ScaledDistance(0),
        ScaledDistance(0),
    ];
    let tree = min_spanning_tree(distances_rest, states_rest, &penalised).unwrap();
    assert_eq!(tree, vec![UnEdge::new(Node(1), Node(2)), UnEdge::new(Node(2), Node(3))]);
}
