use tsp_rust::distance::Distance;
use tsp_rust::edge::UnEdge;
use tsp_rust::edge::UnTour;
use tsp_rust::held_karp::distances_are_solvable;
use tsp_rust::held_karp::held_karp;
use tsp_rust::held_karp::held_karp_with_limit;
use tsp_rust::matrix::EdgeDataMatrix;
use tsp_rust::node::Node;

fn matrix_from(points: &[(i32, i32)]) -> EdgeDataMatrix<Distance> {
    let n = points.len();
    let mut data = Vec::with_capacity(n * n);
    for a in points {
        for b in points {
            data.push(Distance((a.0 - b.0).abs() + (a.1 - b.1).abs()));
        }
    }
    EdgeDataMatrix::new(data, n)
}

fn permutations(items: &mut Vec<usize>, k: usize, best: &mut i32, matrix: &EdgeDataMatrix<Distance>) {
    let n = items.len();
    if k == n {
        let mut cost = 0;
        for i in 0..n {
            cost += matrix.get_data(Node(items[i]), Node(items[(i + 1) % n])).0;
        }
        if cost < *best {
            *best = cost;
        }
        return;
    }
    for i in k..n {
        items.swap(k, i);
        permutations(items, k + 1, best, matrix);
        items.swap(k, i);
    }
}

fn brute_force(matrix: &EdgeDataMatrix<Distance>) -> i32 {
    let mut items: Vec<usize> = (0..matrix.dimension).collect();
    let mut best = i32::MAX;
    permutations(&mut items, 1, &mut best, matrix);
    best
}

fn is_single_cycle(edges: &[UnEdge], n: usize) -> bool {
    if edges.len() != n {
        return false;
    }
    let mut neighbours: Vec<Vec<usize>> = vec![Vec::new(); n];
    for edge in edges {
        neighbours[edge.from.0].push(edge.to.0);
        neighbours[edge.to.0].push(edge.from.0);
    }
    if neighbours.iter().any(|list| list.len() != 2) {
        return false;
    }
    let mut previous = 0;
    let mut current = neighbours[0][0];
    let mut steps = 1;
    while current != 0 {
        let next = if neighbours[current][0] == previous {
            neighbours[current][1]
        } else {
            neighbours[current][0]
        };
        previous = current;
        current = next;
        steps += 1;
        if steps > n {
            return false;
        }
    }
    steps == n
}

#[test]
fn held_karp_finds_the_optimum_of_small_instances() {
    let instances: Vec<Vec<(i32, i32)>> = vec![
        vec![(0, 0), (0, 3), (4, 0)],
        vec![(0, 0), (5, 1), (1, 4), (6, 6), (2, 2)],
        vec![(0, 0), (10, 0), (10, 10), (0, 10), (5, 5), (2, 7), (8, 3)],
        vec![(3, 1), (9, 4), (1, 8), (7, 7), (4, 4), (0, 2), (6, 0), (8, 9)],
        vec![(12, 7), (3, 19), (8, 1), (17, 13), (5, 5), (14, 2), (1, 11), (19, 18), (9, 9)],
    ];
    for points in instances {
        let matrix = matrix_from(&points);
        assert!(distances_are_solvable(&matrix));
        let tour = held_karp(&matrix).unwrap();
        assert!(is_single_cycle(&tour.edges, points.len()));
        let cost: i32 = tour
            .edges
            .iter()
            .map(|edge| matrix.get_data(edge.from, edge.to).0)
            .sum();
        assert_eq!(tour.cost.0, cost);
        assert_eq!(tour.cost.0, brute_force(&matrix));
    }
}

#[test]
fn held_karp_needs_three_nodes() {
    let matrix = EdgeDataMatrix::new(vec![Distance(0), Distance(1), Distance(1), Distance(0)], 2);
    assert_eq!(held_karp(&matrix), None);
}

#[test]
fn held_karp_twice_gives_the_same_cost() {
    let matrix = matrix_from(&[(0, 0), (5, 1), (1, 4), (6, 6), (2, 2), (9, 3)]);
    let first = held_karp(&matrix).unwrap();
    let second = held_karp(&matrix).unwrap();
    assert_eq!(first.cost, second.cost);
    assert_eq!(first, second);
}

#[test]
fn held_karp_cost_does_not_depend_on_the_labels() {
    let points = [(0, 0), (5, 1), (1, 4), (6, 6), (2, 2), (9, 3)];
    let mut swapped = points;
    swapped.swap(1, 4);
    let first = held_karp(&matrix_from(&points)).unwrap();
    let second = held_karp(&matrix_from(&swapped)).unwrap();
    assert_eq!(first.cost, second.cost);
}

#[test]
fn held_karp_at_its_limit_returns_the_identity_tour() {
    let matrix = matrix_from(&[(0, 0), (5, 1), (1, 4), (6, 6), (2, 2)]);
    let tour = held_karp_with_limit(&matrix, Some(1)).unwrap();
    let expected = UnTour {
        edges: (0..5).map(|i| UnEdge::new(Node(i), Node((i + 1) % 5))).collect(),
        cost: Distance(6 + 7 + 7 + 8 + 4),
    };
    assert_eq!(tour, expected);
}

#[test]
fn tours_are_equal_whatever_the_order_of_their_edges() {
    let a = UnTour {
        edges: vec![
            UnEdge::new(Node(0), Node(1)),
            UnEdge::new(Node(1), Node(2)),
            UnEdge::new(Node(2), Node(0)),
        ],
        cost: Distance(9),
    };
    let b = UnTour {
        edges: vec![
            UnEdge::new(Node(0), Node(2)),
            UnEdge::new(Node(1), Node(0)),
            UnEdge::new(Node(2), Node(1)),
        ],
        cost: Distance(9),
    };
    let c = UnTour {
        edges: b.edges.clone(),
        cost: Distance(10),
    };
    assert_eq!(a, b);
    assert_ne!(a, c);
}

#[test]
fn held_karp_finds_the_only_round_trip_of_cheap_edges() {
    let cheap = [
        (1, 6),
        (6, 2),
        (1, 10),
        (10, 3),
        (2, 4),
        (4, 9),
        (9, 11),
        (11, 5),
        (3, 7),
        (7, 8),
        (0, 5),
        (0, 8),
    ];
    let n = 12;
    let mut data = vec![Distance(200); n * n];
    for i in 0..n {
        data[i * n + i] = Distance(0);
    }
    for &(a, b) in cheap.iter() {
        data[a * n + b] = Distance(100);
        data[b * n + a] = Distance(100);
    }
    let matrix = EdgeDataMatrix::new(data, n);
    assert!(distances_are_solvable(&matrix));
    let expected = UnTour {
        edges: cheap.iter().map(|&(a, b)| UnEdge { from: Node(a), to: Node(b) }).collect(),
        cost: Distance(1200),
    };
    assert_eq!(held_karp(&matrix).unwrap(), expected);
}
