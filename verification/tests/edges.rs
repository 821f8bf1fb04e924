use tsp_rust::distance::Distance;
use tsp_rust::edge::count_occurrences;
use tsp_rust::edge::InvWeightUnEdge;
use tsp_rust::edge::UnEdge;
use tsp_rust::held_karp::edge_state::EdgeState;
use tsp_rust::node::Node;

#[test]
fn edges_are_equal_in_both_directions() {
    let a = UnEdge::new(Node(2), Node(5));
    let b = UnEdge::new(Node(5), Node(2));
    let c = UnEdge::new(Node(2), Node(4));
    assert_eq!(a, b);
    assert_ne!(a, c);
    assert_eq!(count_occurrences(&vec![a, c, b, a], &b), 3);
    assert_eq!(count_occurrences(&vec![], &b), 0);
}

#[test]
fn edges_are_ordered_by_smaller_then_larger_end() {
    let a = UnEdge::new(Node(5), Node(1));
    let b = UnEdge::new(Node(2), Node(3));
    let c = UnEdge::new(Node(1), Node(6));
    assert!(a.precedes(&b));
    assert!(!b.precedes(&a));
    assert!(a.precedes(&c));
    assert!(!c.precedes(&a));
    assert!(!a.precedes(&UnEdge::new(Node(1), Node(5))));
}

#[test]
fn cheaper_weighted_edges_rank_higher() {
    let cheap = InvWeightUnEdge::new(Distance(3), Node(1), Node(2));
    let dear = InvWeightUnEdge::new(Distance(9), Node(3), Node(4));
    assert!(cheap.outranks(&dear));
    assert!(!dear.outranks(&cheap));
    assert!(!cheap.outranks(&cheap));
    assert_eq!(cheap.to_edge(), UnEdge::new(Node(2), Node(1)));
}

#[test]
fn edge_states_are_the_bytes_one_zero_and_minus_one() {
    assert_eq!(EdgeState::Available.to_i8(), 1);
    assert_eq!(EdgeState::Excluded.to_i8(), 0);
    assert_eq!(EdgeState::Fixed.to_i8(), -1);
    for state in [EdgeState::Available, EdgeState::Excluded, EdgeState::Fixed] {
        assert_eq!(EdgeState::from_i8(state.to_i8()), state);
        assert_eq!(state.flip().to_i8(), -state.to_i8());
    }
}
