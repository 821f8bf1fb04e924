//! When the edges of a 1-tree are a tour.
//!
//! A tour through `n` nodes is given by `n` edges that hold, for some order
//! of the nodes, the edge from every node to the next and from the last
//! back to the first. A 1-tree in which every node has degree 2 is a tour:
//! its spanning tree is a path, and node 0 closes the path.

use crate::edge::UnEdge;
use crate::edge::degree;
use crate::held_karp::lower_bound::sum_of_squares;
use crate::held_karp::tree_laws::grows_from;
use crate::held_karp::tree_laws::has_edge;
use crate::held_karp::tree_laws::lemma_reaches_after_push;
use crate::held_karp::tree_laws::lemma_spanning_tree_is_grown;
use crate::held_karp::tree_laws::next_on_cycle;
use crate::held_karp::tree_laws::reaches;
use crate::held_karp::trees::OneTreeProblem;
use crate::held_karp::trees::UNREACHED;
use crate::held_karp::trees::links_below;
use crate::held_karp::trees::one_tree;
use crate::held_karp::trees::spanning_tree;
use crate::node::Node;
use vstd::prelude::*;

verus! {

/// Whether `order` lists every node once and `edges` holds the edge from
/// each node of `order` to the next, and from the last back to the first.
pub open spec fn is_cycle_through(edges: Seq<UnEdge>, order: Seq<int>) -> bool {
    &&& order.len() == edges.len()
    &&& forall|i: int| 0 <= i < order.len() ==> 0 <= #[trigger] order[i] < order.len()
    &&& forall|i: int, j: int| 0 <= i < j < order.len() ==> order[i] != order[j]
    &&& forall|i: int| 0 <= i < order.len() ==> #[trigger] joins_next(edges, order, i)
}

/// Whether `edges` holds the edge from the node at place `i` of `order` to
/// the node at the next place.
pub open spec fn joins_next(edges: Seq<UnEdge>, order: Seq<int>, i: int) -> bool {
    has_edge(edges, order[i], order[next_on_cycle(i, order.len() as int)])
}

/// Whether `edges` is a tour through the nodes `0..dimension`: as many
/// edges as nodes, which close one cycle through all of them.
pub open spec fn is_tour(edges: Seq<UnEdge>, dimension: int) -> bool {
    edges.len() == dimension && exists|order: Seq<int>| is_cycle_through(edges, order)
}

/// One edge more adds one to the degree of each of its ends.
pub proof fn lemma_degree_of_push(edges: Seq<UnEdge>, edge: UnEdge, node: int)
    ensures
        degree(edges.push(edge), node) == degree(edges, node) + if edge.from.0 == node {
            1nat
        } else {
            0nat
        } + if edge.to.0 == node {
            1nat
        } else {
            0nat
        },
{
    assert(edges.push(edge).drop_last() =~= edges);
}

/// An edge that `edges` holds is held after one edge more.
pub proof fn lemma_has_edge_after_push(edges: Seq<UnEdge>, edge: UnEdge, a: int, b: int)
    requires
        has_edge(edges, a, b),
    ensures
        has_edge(edges.push(edge), a, b),
{
    let i = choose|i: int|
        0 <= i < edges.len() && ((#[trigger] edges[i]).from.0 == a && edges[i].to.0 == b
            || edges[i].from.0 == b && edges[i].to.0 == a);
    assert(edges.push(edge)[i] == edges[i]);
}

/// A tree that was grown from `root` without its last edge was grown from
/// `root` too, and reaches what the tree reached before its last edge.
pub proof fn lemma_grown_without_last(edges: Seq<UnEdge>, root: int)
    requires
        grows_from(edges, root),
        edges.len() > 0,
    ensures
        grows_from(edges.drop_last(), root),
        forall|node: int, k: int|
            0 <= k < edges.len() ==> #[trigger] reaches(edges.drop_last(), root, k, node)
                == reaches(edges, root, k, node),
{
    let prefix = edges.drop_last();
    assert forall|node: int, k: int| 0 <= k < edges.len() implies #[trigger] reaches(
        prefix,
        root,
        k,
        node,
    ) == reaches(edges, root, k, node) by {
        if reaches(prefix, root, k, node) && node != root {
            let j = choose|j: int| 0 <= j < k && (#[trigger] prefix[j]).to.0 == node;
            assert(edges[j].to.0 == node);
        }
        if reaches(edges, root, k, node) && node != root {
            let j = choose|j: int| 0 <= j < k && (#[trigger] edges[j]).to.0 == node;
            assert(prefix[j].to.0 == node);
        }
    }
    assert forall|i: int| 0 <= i < prefix.len() implies reaches(
        prefix,
        root,
        i,
        (#[trigger] prefix[i]).from.0 as int,
    ) && !reaches(prefix, root, i, prefix[i].to.0 as int) by {
        assert(prefix[i] == edges[i]);
    }
}

/// A node that a grown tree does not reach has no edge.
pub proof fn lemma_unreached_has_no_edge(edges: Seq<UnEdge>, root: int, node: int)
    requires
        grows_from(edges, root),
        !reaches(edges, root, edges.len() as int, node),
    ensures
        degree(edges, node) == 0,
    decreases edges.len(),
{
    if edges.len() > 0 {
        let last = edges.len() - 1;
        lemma_grown_without_last(edges, root);
        assert(edges[last].to.0 != node);
        assert(reaches(edges, root, last, edges[last].from.0 as int));
        if edges[last].from.0 == node {
            if node != root {
                let j = choose|j: int| 0 <= j < last && (#[trigger] edges[j]).to.0 == node;
                assert(reaches(edges, root, edges.len() as int, node));
            }
        }
        if reaches(edges.drop_last(), root, last, node) && node != root {
            let j = choose|j: int| 0 <= j < last && (#[trigger] edges[j]).to.0 == node;
            assert(reaches(edges, root, edges.len() as int, node));
        }
        lemma_unreached_has_no_edge(edges.drop_last(), root, node);
    }
}

/// Whether `path` lists the nodes of the tree `edges` once each, every two
/// neighbours joined by an edge, the two ends of degree 1 and all others of
/// degree 2.
pub open spec fn is_path_of(edges: Seq<UnEdge>, root: int, path: Seq<int>) -> bool {
    &&& path.len() == edges.len() + 1
    &&& forall|i: int, j: int| 0 <= i < j < path.len() ==> path[i] != path[j]
    &&& forall|i: int|
        0 <= i < path.len() ==> reaches(edges, root, edges.len() as int, #[trigger] path[i])
    &&& forall|node: int|
        reaches(edges, root, edges.len() as int, node) ==> exists|i: int|
            0 <= i < path.len() && #[trigger] path[i] == node
    &&& forall|i: int| 0 <= i < path.len() - 1 ==> has_edge(edges, #[trigger] path[i], path[i + 1])
    &&& path.len() >= 2 ==> degree(edges, path[0]) == 1 && degree(edges, path.last()) == 1
    &&& forall|i: int| 0 < i < path.len() - 1 ==> degree(edges, #[trigger] path[i]) == 2
}

/// A path grows at its end by an edge from its last node to a new node.
#[verifier::rlimit(40)]
pub proof fn lemma_path_grows_at_end(
    prefix: Seq<UnEdge>,
    edge: UnEdge,
    root: int,
    before: Seq<int>,
)
    requires
        is_path_of(prefix, root, before),
        edge.from.0 == before.last(),
        !reaches(prefix, root, prefix.len() as int, edge.to.0 as int),
        degree(prefix, edge.from.0 as int) <= 1,
        degree(prefix, edge.to.0 as int) == 0,
    ensures
        is_path_of(prefix.push(edge), root, before.push(edge.to.0 as int)),
{
    let edges = prefix.push(edge);
    let path = before.push(edge.to.0 as int);
    let u = edge.from.0 as int;
    let v = edge.to.0 as int;
    let last = prefix.len() as int;
    assert(reaches(prefix, root, last, before[last]));
    assert(u != v);
    assert forall|i: int| 0 <= i < before.len() implies #[trigger] before[i] != v by {
        assert(reaches(prefix, root, last, before[i]));
    }
    assert forall|i: int, j: int| 0 <= i < j < path.len() implies path[i] != path[j] by {
        if j < before.len() {
            assert(before[i] != before[j]);
        } else {
            assert(before[i] != v);
        }
    }
    assert forall|i: int| 0 <= i < path.len() implies reaches(
        edges,
        root,
        edges.len() as int,
        #[trigger] path[i],
    ) by {
        lemma_reaches_after_push(prefix, edge, root, path[i]);
        if i < before.len() {
            assert(reaches(prefix, root, last, before[i]));
        }
    }
    assert forall|node: int| reaches(edges, root, edges.len() as int, node) implies exists|i: int|
        0 <= i < path.len() && #[trigger] path[i] == node by {
        lemma_reaches_after_push(prefix, edge, root, node);
        if node == v {
            assert(path[before.len() as int] == v);
        } else {
            let i = choose|i: int| 0 <= i < before.len() && #[trigger] before[i] == node;
            assert(path[i] == node);
        }
    }
    assert forall|i: int| 0 <= i < path.len() - 1 implies has_edge(
        edges,
        #[trigger] path[i],
        path[i + 1],
    ) by {
        if i < before.len() - 1 {
            assert(path[i] == before[i] && path[i + 1] == before[i + 1]);
            lemma_has_edge_after_push(prefix, edge, before[i], before[i + 1]);
        } else {
            assert(edges[last].from.0 == u && edges[last].to.0 == v);
        }
    }
    lemma_degree_of_push(prefix, edge, u);
    lemma_degree_of_push(prefix, edge, v);
    assert forall|i: int| 0 < i < path.len() - 1 implies degree(edges, #[trigger] path[i])
        == 2 by {
        lemma_degree_of_push(prefix, edge, path[i]);
        assert(path[i] == before[i]);
        if i < before.len() - 1 {
            assert(degree(prefix, before[i]) == 2);
            assert(before[i] != before[last]);
        }
    }
    if before.len() >= 2 {
        assert(before[0] != before[last]);
        lemma_degree_of_push(prefix, edge, before[0]);
    }
    assert(path[0] == before[0]);
    assert(path.last() == v);
}

/// A path grows at its start by an edge from its first node to a new node.
#[verifier::rlimit(40)]
pub proof fn lemma_path_grows_at_start(
    prefix: Seq<UnEdge>,
    edge: UnEdge,
    root: int,
    before: Seq<int>,
)
    requires
        is_path_of(prefix, root, before),
        edge.from.0 == before[0],
        !reaches(prefix, root, prefix.len() as int, edge.to.0 as int),
        degree(prefix, edge.from.0 as int) <= 1,
        degree(prefix, edge.to.0 as int) == 0,
    ensures
        is_path_of(prefix.push(edge), root, seq![edge.to.0 as int] + before),
{
    let edges = prefix.push(edge);
    let path = seq![edge.to.0 as int] + before;
    let u = edge.from.0 as int;
    let v = edge.to.0 as int;
    let last = prefix.len() as int;
    assert(reaches(prefix, root, last, before[0]));
    assert(u != v);
    assert forall|i: int| 0 <= i < before.len() implies #[trigger] path[i + 1] == before[i] by {}
    assert(path[0] == v);
    assert forall|i: int| 0 <= i < before.len() implies #[trigger] before[i] != v by {
        assert(reaches(prefix, root, last, before[i]));
    }
    assert forall|i: int, j: int| 0 <= i < j < path.len() implies path[i] != path[j] by {
        assert(path[j] == before[j - 1]);
        if i == 0 {
            assert(before[j - 1] != v);
        } else {
            assert(path[i] == before[i - 1]);
            assert(before[i - 1] != before[j - 1]);
        }
    }
    assert forall|i: int| 0 <= i < path.len() implies reaches(
        edges,
        root,
        edges.len() as int,
        #[trigger] path[i],
    ) by {
        lemma_reaches_after_push(prefix, edge, root, path[i]);
        if i > 0 {
            assert(path[i] == before[i - 1]);
            assert(reaches(prefix, root, last, before[i - 1]));
        }
    }
    assert forall|node: int| reaches(edges, root, edges.len() as int, node) implies exists|i: int|
        0 <= i < path.len() && #[trigger] path[i] == node by {
        lemma_reaches_after_push(prefix, edge, root, node);
        if node == v {
            assert(path[0] == v);
        } else {
            let i = choose|i: int| 0 <= i < before.len() && #[trigger] before[i] == node;
            assert(path[i + 1] == node);
        }
    }
    assert forall|i: int| 0 <= i < path.len() - 1 implies has_edge(
        edges,
        #[trigger] path[i],
        path[i + 1],
    ) by {
        if i == 0 {
            assert(path[1] == before[0]);
            assert(edges[last].from.0 == u && edges[last].to.0 == v);
        } else {
            assert(path[i] == before[i - 1]);
            assert(path[i + 1] == before[i]);
            assert(has_edge(prefix, before[i - 1], before[i - 1 + 1]));
            lemma_has_edge_after_push(prefix, edge, before[i - 1], before[i]);
        }
    }
    lemma_degree_of_push(prefix, edge, u);
    lemma_degree_of_push(prefix, edge, v);
    assert forall|i: int| 0 < i < path.len() - 1 implies degree(edges, #[trigger] path[i])
        == 2 by {
        lemma_degree_of_push(prefix, edge, path[i]);
        assert(path[i] == before[i - 1]);
        if i - 1 > 0 {
            assert(degree(prefix, before[i - 1]) == 2);
            assert(before[0] != before[i - 1]);
        }
    }
    assert(path.last() == before.last());
    if before.len() >= 2 {
        assert(before[0] != before[before.len() - 1]);
        lemma_degree_of_push(prefix, edge, before.last());
    }
}

/// A grown tree in which no node has a degree above 2 is a path.
pub proof fn lemma_slim_tree_is_a_path(edges: Seq<UnEdge>, root: int) -> (path: Seq<int>)
    requires
        grows_from(edges, root),
        forall|node: int| degree(edges, node) <= 2,
    ensures
        is_path_of(edges, root, path),
    decreases edges.len(),
{
    if edges.len() == 0 {
        let path = seq![root];
        assert(path[0] == root);
        assert forall|node: int| reaches(edges, root, 0, node) implies exists|i: int|
            0 <= i < path.len() && #[trigger] path[i] == node by {
            assert(path[0] == node);
        }
        assert(is_path_of(edges, root, path));
        path
    } else {
        let prefix = edges.drop_last();
        let last = edges.len() - 1;
        let edge = edges[last];
        let u = edge.from.0 as int;
        let v = edge.to.0 as int;
        assert(edges =~= prefix.push(edge));
        lemma_grown_without_last(edges, root);
        assert forall|node: int| degree(prefix, node) <= 2 by {
            lemma_degree_of_push(prefix, edge, node);
            assert(degree(edges, node) <= 2);
        }
        let before = lemma_slim_tree_is_a_path(prefix, root);
        assert(reaches(edges, root, last, u));
        assert(!reaches(edges, root, last, v));
        assert(reaches(prefix, root, last, u));
        assert(!reaches(prefix, root, last, v));
        lemma_unreached_has_no_edge(prefix, root, v);
        lemma_degree_of_push(prefix, edge, u);
        assert(degree(edges, u) <= 2);
        assert(u != v);
        assert(degree(prefix, u) <= 1);
        let at = choose|i: int| 0 <= i < before.len() && #[trigger] before[i] == u;
        if 0 < at < before.len() - 1 {
            assert(degree(prefix, before[at]) == 2);
        }
        if at == before.len() - 1 {
            lemma_path_grows_at_end(prefix, edge, root, before);
            before.push(v)
        } else {
            lemma_path_grows_at_start(prefix, edge, root, before);
            seq![v] + before
        }
    }
}

/// What the scan of node 0 has found leads to different nodes among those
/// scanned, and there is a second neighbour only where there is a first.
pub proof fn lemma_links_are_different(p: OneTreeProblem, k: int)
    requires
        links_below(p, k) is Some,
    ensures
        ({
            let found = links_below(p, k)->0;
            &&& found.node_a matches Some(a) ==> 1 <= a < k
            &&& found.node_b matches Some(b) ==> 1 <= b < k && found.node_a is Some
                && found.node_a != Some(b)
            &&& found.node_a is None ==> found.cost_a == UNREACHED
            &&& found.node_b is None ==> found.cost_b == UNREACHED
        }),
    decreases k,
{
    if k > 1 {
        lemma_links_are_different(p, k - 1);
    }
}

/// Where a sum of squares is zero, every value is zero.
pub proof fn lemma_no_squares_no_values(values: Seq<int>)
    ensures
        0 <= sum_of_squares(values),
        sum_of_squares(values) == 0 ==> forall|i: int|
            0 <= i < values.len() ==> #[trigger] values[i] == 0,
    decreases values.len(),
{
    if values.len() > 0 {
        lemma_no_squares_no_values(values.drop_last());
        let last = values.last();
        assert(last * last >= 0 && (last * last == 0 ==> last == 0)) by (nonlinear_arith);
        if sum_of_squares(values) == 0 {
            assert forall|i: int| 0 <= i < values.len() implies #[trigger] values[i] == 0 by {
                if i < values.len() - 1 {
                    assert(values.drop_last()[i] == values[i]);
                }
            }
        }
    }
}

/// A path through the nodes `1..n`, closed by the edges from node 0 to its
/// two ends, is a tour.
#[verifier::rlimit(40)]
pub proof fn lemma_closing_a_path(tree: Seq<UnEdge>, path: Seq<int>, a: int, b: int, n: int)
    requires
        3 <= n <= usize::MAX,
        is_path_of(tree, 1, path),
        path.len() == n - 1,
        forall|i: int| 0 <= i < path.len() ==> 1 <= #[trigger] path[i] < n,
        1 <= a < n,
        1 <= b < n,
        path[0] == a && path.last() == b || path[0] == b && path.last() == a,
    ensures
        is_tour(
            tree.push(UnEdge { from: Node(0), to: Node(a as usize) }).push(
                UnEdge { from: Node(0), to: Node(b as usize) },
            ),
            n,
        ),
{
    let to_a = UnEdge { from: Node(0), to: Node(a as usize) };
    let to_b = UnEdge { from: Node(0), to: Node(b as usize) };
    let with_a = tree.push(to_a);
    let edges = with_a.push(to_b);
    let order = seq![0int] + path;
    assert(order.len() == n);
    assert(order[0] == 0);
    assert forall|i: int| 0 <= i < path.len() implies #[trigger] order[i + 1] == path[i] by {}
    assert forall|i: int| 0 <= i < order.len() implies 0 <= #[trigger] order[i]
        < order.len() by {
        if i > 0 {
            assert(order[i] == path[i - 1]);
        }
    }
    assert forall|i: int, j: int| 0 <= i < j < order.len() implies order[i] != order[j] by {
        assert(order[j] == path[j - 1]);
        if i > 0 {
            assert(order[i] == path[i - 1]);
            assert(path[i - 1] != path[j - 1]);
        }
    }
    assert(edges[n - 2] == to_a);
    assert(edges[n - 1] == to_b);
    assert(has_edge(edges, 0, a) && has_edge(edges, a, 0)) by {
        assert(edges[n - 2].from.0 == 0 && edges[n - 2].to.0 == a);
    }
    assert(has_edge(edges, 0, b) && has_edge(edges, b, 0)) by {
        assert(edges[n - 1].from.0 == 0 && edges[n - 1].to.0 == b);
    }
    assert forall|i: int| 0 <= i < order.len() implies #[trigger] joins_next(edges, order, i) by {
        if i == 0 {
            assert(order[1] == path[0]);
        } else if i == n - 1 {
            assert(order[i] == path[i - 1]);
        } else {
            assert(order[i] == path[i - 1]);
            assert(order[i + 1] == path[i]);
            assert(has_edge(tree, path[i - 1], path[i - 1 + 1]));
            lemma_has_edge_after_push(tree, to_a, path[i - 1], path[i]);
            lemma_has_edge_after_push(with_a, to_b, path[i - 1], path[i]);
        }
    }
    assert(is_cycle_through(edges, order));
}

/// A 1-tree in which every node has degree 2 is a tour.
#[verifier::rlimit(40)]
pub proof fn lemma_one_tree_of_degree_two_is_a_tour(p: OneTreeProblem, edges: Seq<UnEdge>)
    requires
        p.wf(),
        one_tree(p) == Some(edges),
        forall|node: int| 0 <= node < p.dimension ==> degree(edges, node) == 2,
    ensures
        is_tour(edges, p.dimension),
{
    let n = p.dimension;
    let sub = p.without_node_zero();
    assert((n - 1) * n == n * n - n) by (nonlinear_arith);
    assert(sub.wf());
    let tree = spanning_tree(sub)->0;
    lemma_spanning_tree_is_grown(sub);
    lemma_links_are_different(p, n);
    let found = links_below(p, n)->0;
    let a = found.node_a->0;
    let b = found.node_b->0;
    let to_a = UnEdge { from: Node(0), to: Node(a as usize) };
    let to_b = UnEdge { from: Node(0), to: Node(b as usize) };
    let with_a = tree.push(to_a);
    assert(edges == with_a.push(to_b));
    assert forall|node: int| degree(edges, node) == degree(tree, node) + if node == 0 {
        2int
    } else {
        0int
    } + if node == a {
        1int
    } else {
        0int
    } + if node == b {
        1int
    } else {
        0int
    } by {
        lemma_degree_of_push(tree, to_a, node);
        lemma_degree_of_push(with_a, to_b, node);
    }
    assert forall|node: int| reaches(tree, 1, tree.len() as int, node) implies 1 <= node < n by {
        if node != 1 {
            let j = choose|j: int| 0 <= j < tree.len() && (#[trigger] tree[j]).to.0 == node;
        }
    }
    assert forall|node: int| degree(tree, node) <= 2 by {
        if 0 <= node < n {
            assert(degree(edges, node) == 2);
        } else {
            lemma_unreached_has_no_edge(tree, 1, node);
        }
    }
    let path = lemma_slim_tree_is_a_path(tree, 1);
    assert(path.len() == n - 1);
    assert forall|i: int| 0 <= i < path.len() implies 1 <= #[trigger] path[i] < n by {
        assert(reaches(tree, 1, tree.len() as int, path[i]));
    }
    let head = path[0];
    let tail = path.last();
    assert(1 <= head < n);
    assert(1 <= tail < n);
    assert(degree(edges, head) == 2);
    assert(degree(edges, tail) == 2);
    assert(path.len() >= 2);
    assert(head != tail);
    lemma_closing_a_path(tree, path, a, b, n);
}

/// The edges from every node to the next, and from the last node back to
/// node 0, are a tour.
pub proof fn lemma_identity_tour_is_a_tour(edges: Seq<UnEdge>, dimension: int)
    requires
        dimension >= 1,
        edges.len() == dimension,
        forall|i: int|
            0 <= i < dimension ==> (#[trigger] edges[i]).from.0 == i && edges[i].to.0
                == next_on_cycle(i, dimension),
    ensures
        is_tour(edges, dimension),
{
    let order = Seq::new(dimension as nat, |i: int| i);
    assert forall|i: int| 0 <= i < order.len() implies #[trigger] joins_next(edges, order, i) by {
        assert(edges[i].from.0 == i && edges[i].to.0 == next_on_cycle(i, dimension));
    }
    assert(is_cycle_through(edges, order));
}

} // verus!
