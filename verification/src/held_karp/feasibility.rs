//! Where the edge states admit a tour, they admit a 1-tree.
//!
//! The kernel fails in two ways. A node that is forced twice would give the
//! path of the tour one edge too many; a node that no edge reaches would
//! leave the path of the tour in two pieces.

use crate::edge::UnEdge;
use crate::held_karp::edge_state::EdgeState;
use crate::held_karp::optimality::admits_no_spanning_tree;
use crate::held_karp::optimality::connected;
use crate::held_karp::optimality::is_spanning_tree;
use crate::held_karp::optimality::crosses;
use crate::held_karp::optimality::feasible;
use crate::held_karp::optimality::is_crossed;
use crate::held_karp::optimality::is_symmetric;
use crate::held_karp::optimality::keyed;
use crate::held_karp::optimality::lemma_kernel_catches_up;
use crate::held_karp::optimality::lemma_relaxing_keeps_keyed;
use crate::held_karp::optimality::lemma_rounds_are_keyed;
use crate::held_karp::optimality::lemma_tree_on_one_side;
use crate::held_karp::optimality::relaxed_keyed;
use crate::held_karp::optimality::splits;
use crate::held_karp::optimality::starts_with;
use crate::held_karp::tree_laws::grown;
use crate::held_karp::tree_laws::grows_from;
use crate::held_karp::tree_laws::has_edge;
use crate::held_karp::tree_laws::is_fixed;
use crate::held_karp::tree_laws::lemma_all_members;
use crate::held_karp::tree_laws::lemma_cheapest_is_least;
use crate::held_karp::tree_laws::lemma_members_full;
use crate::held_karp::tree_laws::lemma_members_grow;
use crate::held_karp::tree_laws::lemma_reduced_is_finite;
use crate::held_karp::tree_laws::lemma_rounds_are_shaped;
use crate::held_karp::tree_laws::members;
use crate::held_karp::tree_laws::reaches;
use crate::held_karp::tree_laws::shaped;
use crate::held_karp::trees::FORCED;
use crate::held_karp::trees::PrimState;
use crate::held_karp::trees::TreeProblem;
use crate::held_karp::trees::UNREACHED;
use crate::held_karp::trees::cheapest_below;
use crate::held_karp::trees::forced_twice;
use crate::held_karp::trees::prim_round;
use crate::held_karp::trees::prim_rounds;
use crate::held_karp::trees::relaxed_cost;
use crate::held_karp::trees::remaining;
use crate::held_karp::trees::spanning_tree;
use crate::node::Node;
use vstd::prelude::*;

verus! {

/// The number of edges that join two different nodes.
pub open spec fn proper_edges(edges: Seq<UnEdge>) -> int
    decreases edges.len(),
{
    if edges.len() == 0 {
        0
    } else {
        proper_edges(edges.drop_last()) + if edges.last().from.0 != edges.last().to.0 {
            1int
        } else {
            0int
        }
    }
}

/// One edge put in the place of another changes the number of proper edges
/// by what the two are.
pub proof fn lemma_proper_edges_of_update(edges: Seq<UnEdge>, i: int, edge: UnEdge)
    requires
        0 <= i < edges.len(),
    ensures
        proper_edges(edges.update(i, edge)) == proper_edges(edges) - if edges[i].from.0
            != edges[i].to.0 {
            1int
        } else {
            0int
        } + if edge.from.0 != edge.to.0 {
            1int
        } else {
            0int
        },
    decreases edges.len(),
{
    let updated = edges.update(i, edge);
    if i == edges.len() - 1 {
        assert(updated.drop_last() =~= edges.drop_last());
    } else {
        assert(updated.drop_last() =~= edges.drop_last().update(i, edge));
        lemma_proper_edges_of_update(edges.drop_last(), i, edge);
    }
}

/// There are at least as many proper edges as there are proper edges among
/// the first `k`.
pub proof fn lemma_proper_edges_at_start(edges: Seq<UnEdge>, k: int)
    requires
        0 <= k <= edges.len(),
        forall|i: int| 0 <= i < k ==> (#[trigger] edges[i]).from.0 != edges[i].to.0,
    ensures
        proper_edges(edges) >= k,
        proper_edges(edges) <= edges.len(),
    decreases edges.len(),
{
    if edges.len() > 0 {
        let fewer = if k == edges.len() {
            k - 1
        } else {
            k
        };
        assert forall|i: int| 0 <= i < fewer implies (#[trigger] edges.drop_last()[i]).from.0
            != edges.drop_last()[i].to.0 by {
            assert(edges.drop_last()[i] == edges[i]);
        }
        lemma_proper_edges_at_start(edges.drop_last(), fewer);
        if k == edges.len() {
            assert(edges.last() == edges[k - 1]);
        }
    }
}

/// The nodes that the first `k` edges reach from `root`.
pub open spec fn reached(edges: Seq<UnEdge>, root: int, k: int, dimension: int) -> Seq<bool> {
    Seq::new(dimension as nat, |v: int| reaches(edges, root, k, v))
}

/// Edges that connect the nodes can be put in an order that starts with a
/// tree of `k` proper edges grown from `first`, for every `k` below the
/// number of nodes.
pub proof fn lemma_connected_grows_a_tree(p: TreeProblem, edges: Seq<UnEdge>, k: nat) -> (ordered:
    Seq<UnEdge>)
    requires
        p.wf(),
        connected(p, edges),
        forall|i: int|
            0 <= i < edges.len() ==> p.first <= (#[trigger] edges[i]).from.0 < p.dimension
                && p.first <= edges[i].to.0 < p.dimension,
        k < p.dimension - p.first,
    ensures
        ordered.len() == edges.len(),
        k <= ordered.len(),
        proper_edges(ordered) == proper_edges(edges),
        connected(p, ordered),
        forall|i: int|
            0 <= i < ordered.len() ==> p.first <= (#[trigger] ordered[i]).from.0 < p.dimension
                && p.first <= ordered[i].to.0 < p.dimension,
        grows_from(ordered.take(k as int), p.first),
        members(reached(ordered, p.first, k as int, p.dimension), p.first, p.dimension) == k + 1,
        forall|i: int| 0 <= i < k ==> (#[trigger] ordered[i]).from.0 != ordered[i].to.0,
    decreases k,
{
    if k == 0 {
        let zone = reached(edges, p.first, 0, p.dimension);
        lemma_one_member(zone, p.first, p.dimension);
        assert(grows_from(edges.take(0), p.first));
        edges
    } else {
        let before = lemma_connected_grows_a_tree(p, edges, (k - 1) as nat);
        let t = (k - 1) as int;
        let zone = reached(before, p.first, t, p.dimension);
        lemma_members_full(zone, p.first, p.dimension);
        if forall|v: int| p.first <= v < p.dimension ==> #[trigger] zone[v] {
            lemma_all_members(zone, p.first, p.dimension);
        }
        assert(zone[p.first]);
        assert(splits(p, zone));
        assert(is_crossed(before, zone));
        let j = choose|j: int| 0 <= j < before.len() && crosses(#[trigger] before[j], zone);
        assert(j >= t) by {
            if j < t {
                assert(before.take(t)[j] == before[j]);
                assert(reaches(before.take(t), p.first, j, before[j].from.0 as int));
                lemma_prefix_reaches(before, p.first, t, j, before[j].from.0 as int);
                assert(reaches(before, p.first, t, before[j].from.0 as int));
                assert(reaches(before, p.first, t, before[j].to.0 as int));
            }
        }
        let found = before[j];
        let edge = if zone[found.from.0 as int] {
            found
        } else {
            UnEdge { from: found.to, to: found.from }
        };
        let ordered = before.update(j, before[t]).update(t, edge);
        lemma_proper_edges_of_update(before, j, before[t]);
        lemma_proper_edges_of_update(before.update(j, before[t]), t, edge);
        assert(before.update(j, before[t])[t] == before[t]);
        // The new order connects the nodes as the old one does.
        assert forall|side: Seq<bool>| #[trigger] splits(p, side) implies is_crossed(
            ordered,
            side,
        ) by {
            assert(is_crossed(before, side));
            let i = choose|i: int| 0 <= i < before.len() && crosses(#[trigger] before[i], side);
            if i == j {
                assert(crosses(ordered[t], side));
            } else if i == t {
                assert(ordered[j] == before[t]);
                assert(crosses(ordered[j], side));
            } else {
                assert(ordered[i] == before[i]);
                assert(crosses(ordered[i], side));
            }
        }
        assert forall|i: int| 0 <= i < ordered.len() implies p.first <= (
        #[trigger] ordered[i]).from.0 < p.dimension && p.first <= ordered[i].to.0
            < p.dimension by {
            if i == t {
            } else if i == j {
                assert(ordered[i] == before[t]);
            } else {
                assert(ordered[i] == before[i]);
            }
        }
        // The first `k` edges grow a tree.
        assert forall|i: int| 0 <= i < t implies #[trigger] ordered[i] == before[i] by {}
        assert forall|node: int, m: int| 0 <= m <= t implies reaches(ordered, p.first, m, node)
            == reaches(before, p.first, m, node) by {
            if reaches(ordered, p.first, m, node) && node != p.first {
                let i = choose|i: int| 0 <= i < m && (#[trigger] ordered[i]).to.0 == node;
                assert(before[i].to.0 == node);
            }
            if reaches(before, p.first, m, node) && node != p.first {
                let i = choose|i: int| 0 <= i < m && (#[trigger] before[i]).to.0 == node;
                assert(ordered[i].to.0 == node);
            }
        }
        let prefix = ordered.take(k as int);
        assert forall|i: int| 0 <= i < prefix.len() implies reaches(
            prefix,
            p.first,
            i,
            (#[trigger] prefix[i]).from.0 as int,
        ) && !reaches(prefix, p.first, i, prefix[i].to.0 as int) by {
            lemma_prefix_reaches(ordered, p.first, k as int, i, prefix[i].from.0 as int);
            lemma_prefix_reaches(ordered, p.first, k as int, i, prefix[i].to.0 as int);
            if i < t {
                assert(before.take(t)[i] == before[i]);
                lemma_prefix_reaches(before, p.first, t, i, before[i].from.0 as int);
                lemma_prefix_reaches(before, p.first, t, i, before[i].to.0 as int);
            } else {
                assert(prefix[i] == edge);
                assert(zone[edge.from.0 as int]);
                assert(!zone[edge.to.0 as int]);
            }
        }
        let next_zone = reached(ordered, p.first, k as int, p.dimension);
        assert(next_zone =~= zone.update(edge.to.0 as int, true)) by {
            assert forall|v: int| 0 <= v < p.dimension implies next_zone[v] == zone.update(
                edge.to.0 as int,
                true,
            )[v] by {
                if v == edge.to.0 {
                    assert(ordered[t].to.0 == v);
                } else if reaches(ordered, p.first, k as int, v) && v != p.first {
                    let i = choose|i: int| 0 <= i < k && (#[trigger] ordered[i]).to.0 == v;
                    assert(i < t);
                    assert(reaches(ordered, p.first, t, v));
                } else if zone[v] && v != p.first {
                    let i = choose|i: int| 0 <= i < t && (#[trigger] before[i]).to.0 == v;
                    assert(ordered[i].to.0 == v);
                }
            }
        }
        lemma_members_grow(zone, p.first, p.dimension, edge.to.0 as int);
        assert forall|i: int| 0 <= i < k implies (#[trigger] ordered[i]).from.0
            != ordered[i].to.0 by {
            if i < t {
                assert(ordered[i] == before[i]);
            }
        }
        ordered
    }
}

/// What the first edges of a list reach is what they reach as a list of
/// their own.
pub proof fn lemma_prefix_reaches(edges: Seq<UnEdge>, root: int, k: int, m: int, node: int)
    requires
        0 <= m <= k <= edges.len(),
    ensures
        reaches(edges.take(k), root, m, node) == reaches(edges, root, m, node),
{
    if reaches(edges.take(k), root, m, node) && node != root {
        let i = choose|i: int| 0 <= i < m && (#[trigger] edges.take(k)[i]).to.0 == node;
        assert(edges[i].to.0 == node);
    }
    if reaches(edges, root, m, node) && node != root {
        let i = choose|i: int| 0 <= i < m && (#[trigger] edges[i]).to.0 == node;
        assert(edges.take(k)[i].to.0 == node);
    }
}

/// A zone that holds `first` and no other node has one member.
pub proof fn lemma_one_member(zone: Seq<bool>, first: int, k: int)
    requires
        0 <= first < k <= zone.len() || k <= first,
        first < zone.len() ==> zone[first],
        forall|v: int| first < v < k ==> !#[trigger] zone[v],
    ensures
        members(zone, first, k) == if k > first {
            1int
        } else {
            0int
        },
    decreases k - first,
{
    if k > first {
        lemma_one_member(zone, first, k - 1);
    }
}

/// Edges that connect the nodes to span hold at least one proper edge less
/// than there are nodes.
pub proof fn lemma_connected_needs_edges(p: TreeProblem, edges: Seq<UnEdge>)
    requires
        p.wf(),
        connected(p, edges),
        forall|i: int|
            0 <= i < edges.len() ==> p.first <= (#[trigger] edges[i]).from.0 < p.dimension
                && p.first <= edges[i].to.0 < p.dimension,
    ensures
        proper_edges(edges) >= p.dimension - p.first - 1,
{
    let k = (p.dimension - p.first - 1) as nat;
    let ordered = lemma_connected_grows_a_tree(p, edges, k);
    lemma_proper_edges_at_start(ordered, k as int);
}

/// Where edges that connect the nodes with one edge less than nodes, and
/// that the edge states admit, start with the tree of the kernel, no node
/// is forced twice.
#[verifier::rlimit(60)]
pub proof fn lemma_no_node_is_forced_twice(
    p: TreeProblem,
    st: PrimState,
    rounds: int,
    edges: Seq<UnEdge>,
    v: int,
)
    requires
        p.wf(),
        is_symmetric(p),
        grown(p, st, rounds),
        shaped(p, st),
        starts_with(edges, st.tree),
        connected(p, edges),
        feasible(p, edges),
        edges.len() == p.dimension - p.first - 1,
    ensures
        !forced_twice(p, st, v),
{
    if forced_twice(p, st, v) {
        let t = st.tree.len() as int;
        let u = st.best_pred[v];
        assert(st.best_cost[v] == FORCED);
        assert(p.state(u, v) == EdgeState::Fixed);
        assert(p.state(st.curr, v) == EdgeState::Fixed);
        assert(p.state(v, u) == p.state(u, v));
        assert(p.state(v, st.curr) == p.state(st.curr, v));
        assert(is_fixed(p, u, v));
        assert(is_fixed(p, st.curr, v));
        assert(has_edge(edges, u, v));
        assert(has_edge(edges, st.curr, v));
        let j = choose|j: int|
            0 <= j < edges.len() && ((#[trigger] edges[j]).from.0 == u && edges[j].to.0 == v
                || edges[j].from.0 == v && edges[j].to.0 == u);
        let other = choose|j: int|
            0 <= j < edges.len() && ((#[trigger] edges[j]).from.0 == st.curr && edges[j].to.0 == v
                || edges[j].from.0 == v && edges[j].to.0 == st.curr);
        assert(j != other);
        assert(j >= t) by {
            if j < t {
                assert(edges[j] == st.tree[j]);
                assert(st.in_tree[st.tree[j].from.0 as int] && st.in_tree[st.tree[j].to.0 as int]);
            }
        }
        let idle = UnEdge { from: Node(p.first as usize), to: Node(p.first as usize) };
        let fewer = edges.update(j, idle);
        assert forall|side: Seq<bool>| #[trigger] splits(p, side) implies is_crossed(
            fewer,
            side,
        ) by {
            assert(is_crossed(edges, side));
            let i = choose|i: int| 0 <= i < edges.len() && crosses(#[trigger] edges[i], side);
            if i != j {
                assert(fewer[i] == edges[i]);
                assert(crosses(fewer[i], side));
            } else if crosses(edges[other], side) {
                assert(fewer[other] == edges[other]);
                assert(crosses(fewer[other], side));
            } else {
                if forall|m: int| 0 <= m < t ==> !crosses(#[trigger] st.tree[m], side) {
                    lemma_tree_on_one_side(st.tree, p.first, side, t);
                    assert(st.in_tree[u] == reaches(st.tree, p.first, t, u));
                    assert(st.in_tree[st.curr] == reaches(st.tree, p.first, t, st.curr));
                    assert(side[u] == side[st.curr]);
                    assert(false);
                } else {
                    let m = choose|m: int| 0 <= m < t && crosses(#[trigger] st.tree[m], side);
                    assert(edges[m] == st.tree[m]);
                    assert(fewer[m] == edges[m]);
                    assert(crosses(fewer[m], side));
                }
            }
        }
        assert forall|i: int| 0 <= i < fewer.len() implies p.first <= (#[trigger] fewer[i]).from.0
            < p.dimension && p.first <= fewer[i].to.0 < p.dimension by {
            if i != j {
                assert(fewer[i] == edges[i]);
            }
        }
        lemma_connected_needs_edges(p, fewer);
        lemma_proper_edges_of_update(edges, j, idle);
        lemma_proper_edges_at_start(edges, 0);
        assert(false);
    }
}

/// Where edges that connect the nodes, and that the edge states admit,
/// start with the tree of the kernel, and a node is left, the kernel
/// reaches a node.
#[verifier::rlimit(60)]
pub proof fn lemma_a_node_is_reached(
    p: TreeProblem,
    st: PrimState,
    rounds: int,
    edges: Seq<UnEdge>,
)
    requires
        p.wf(),
        is_symmetric(p),
        grown(p, st, rounds),
        shaped(p, st),
        keyed(p, st),
        forall|v: int| !forced_twice(p, st, v),
        connected(p, edges),
        feasible(p, edges),
        rounds + 1 < p.dimension - p.first,
    ensures
        cheapest_below(
            Seq::new(p.dimension as nat, |v: int| relaxed_cost(p, st, v)),
            st.in_tree,
            p.first,
            p.dimension,
        ) is Some,
{
    let costs = Seq::new(p.dimension as nat, |v: int| relaxed_cost(p, st, v));
    lemma_cheapest_is_least(costs, st.in_tree, p.first, p.dimension);
    if cheapest_below(costs, st.in_tree, p.first, p.dimension) is None {
        lemma_relaxing_keeps_keyed(p, st, rounds);
        lemma_members_full(st.in_tree, p.first, p.dimension);
        if forall|v: int| p.first <= v < p.dimension ==> #[trigger] st.in_tree[v] {
            lemma_all_members(st.in_tree, p.first, p.dimension);
        }
        assert(splits(p, st.in_tree));
        assert(is_crossed(edges, st.in_tree));
        let j = choose|j: int| 0 <= j < edges.len() && crosses(#[trigger] edges[j], st.in_tree);
        let from = edges[j].from.0 as int;
        let to = edges[j].to.0 as int;
        let (x, y) = if st.in_tree[from] {
            (from, to)
        } else {
            (to, from)
        };
        assert(p.state(from, to) != EdgeState::Excluded);
        assert(p.state(x, y) == p.state(y, x));
        assert(remaining(p, st, y));
        assert(costs[y] == relaxed_cost(p, st, y));
        assert(costs[y] >= UNREACHED);
        lemma_reduced_is_finite(p, x, y);
        if p.state(x, y) == EdgeState::Available {
            assert(relaxed_cost(p, st, y) <= p.reduced(x, y));
        } else {
            assert(p.state(x, y) == EdgeState::Fixed);
            assert(relaxed_cost(p, st, y) == FORCED);
        }
        assert(false);
    }
}

/// Where some edges connect the nodes to span with one edge less than
/// nodes, and the edge states admit them, every round of the kernel
/// succeeds.
pub proof fn lemma_rounds_succeed(p: TreeProblem, edges: Seq<UnEdge>, rounds: nat)
    requires
        p.wf(),
        is_symmetric(p),
        connected(p, edges),
        feasible(p, edges),
        edges.len() == p.dimension - p.first - 1,
        rounds < p.dimension - p.first,
    ensures
        prim_rounds(p, rounds) is Some,
    decreases rounds,
{
    if rounds > 0 {
        lemma_rounds_succeed(p, edges, (rounds - 1) as nat);
        let st = prim_rounds(p, (rounds - 1) as nat)->0;
        let changed = lemma_kernel_catches_up(p, edges, (rounds - 1) as nat);
        lemma_rounds_are_shaped(p, (rounds - 1) as nat);
        lemma_rounds_are_keyed(p, (rounds - 1) as nat);
        assert forall|v: int| !forced_twice(p, st, v) by {
            lemma_no_node_is_forced_twice(p, st, rounds - 1, changed, v);
        }
        lemma_a_node_is_reached(p, st, rounds - 1, changed);
    }
}

/// Where some edges connect the nodes to span with one edge less than
/// nodes, and the edge states admit them, there is a spanning tree.
pub proof fn lemma_spanning_tree_exists(p: TreeProblem, edges: Seq<UnEdge>)
    requires
        p.wf(),
        is_symmetric(p),
        connected(p, edges),
        feasible(p, edges),
        edges.len() == p.dimension - p.first - 1,
    ensures
        spanning_tree(p) is Some,
{
    lemma_rounds_succeed(p, edges, (p.dimension - p.first - 1) as nat);
}

/// Where the kernel builds no tree, the edge states admit no spanning
/// tree.
pub proof fn lemma_no_kernel_tree_no_spanning_tree(p: TreeProblem)
    requires
        p.wf(),
        is_symmetric(p),
        spanning_tree(p) is None,
    ensures
        admits_no_spanning_tree(p),
{
    reveal(admits_no_spanning_tree);
    assert forall|edges: Seq<UnEdge>| !#[trigger] is_spanning_tree(p, edges) by {
        if is_spanning_tree(p, edges) {
            lemma_spanning_tree_exists(p, edges);
        }
    }
}

} // verus!
