//! The spanning tree that the kernel builds costs no more than any other.
//!
//! The other tree is turned into the tree of the kernel one edge at a time.
//! In each round the kernel adds the cheapest edge that leaves its tree. The
//! other tree holds an edge that leaves the tree of the kernel too, and that
//! edge gives way to the edge of the kernel without the other tree falling
//! apart or getting dearer.

use crate::edge::UnEdge;
use crate::held_karp::edge_state::EdgeState;
use crate::held_karp::tree_laws::grown;
use crate::held_karp::tree_laws::grows_from;
use crate::held_karp::tree_laws::has_edge;
use crate::held_karp::tree_laws::is_fixed;
use crate::held_karp::tree_laws::lemma_cheapest_is_least;
use crate::held_karp::tree_laws::lemma_cheapest_is_reached;
use crate::held_karp::tree_laws::lemma_earlier_rounds_succeeded;
use crate::held_karp::tree_laws::lemma_reduced_is_finite;
use crate::held_karp::tree_laws::lemma_round_keeps_grown;
use crate::held_karp::tree_laws::lemma_rounds_are_grown;
use crate::held_karp::tree_laws::lemma_rounds_are_shaped;
use crate::held_karp::tree_laws::reaches;
use crate::held_karp::tree_laws::shaped;
use crate::held_karp::trees::FORCED;
use crate::held_karp::trees::PrimState;
use crate::held_karp::trees::TreeProblem;
use crate::held_karp::trees::UNREACHED;
use crate::held_karp::trees::cheapest_below;
use crate::held_karp::trees::forced_twice;
use crate::held_karp::trees::improves;
use crate::held_karp::trees::prim_round;
use crate::held_karp::trees::prim_rounds;
use crate::held_karp::trees::prim_start;
use crate::held_karp::trees::relaxed_cost;
use crate::held_karp::trees::relaxed_pred;
use crate::held_karp::trees::remaining;
use crate::held_karp::trees::spanning_tree;
use crate::node::Node;
use vstd::prelude::*;

verus! {

/// Whether states and reduced distances are the same in both directions
/// between the nodes to span.
pub open spec fn is_symmetric(p: TreeProblem) -> bool {
    &&& forall|u: int, v: int|
        p.first <= u < p.dimension && p.first <= v < p.dimension ==> #[trigger] p.state(u, v)
            == p.state(v, u)
    &&& forall|u: int, v: int|
        p.first <= u < p.dimension && p.first <= v < p.dimension ==> #[trigger] p.reduced(u, v)
            == p.reduced(v, u)
}

/// What the costs of the bookkeeping say about the edges that leave the
/// tree: a cost between the two sentinels is the reduced distance of the
/// `Available` edge from the predecessor, and no `Available` edge from a
/// node of the tree, other than the one that joined last, is cheaper.
pub open spec fn keyed(p: TreeProblem, st: PrimState) -> bool {
    &&& forall|y: int|
        remaining(p, st, y) && FORCED < #[trigger] st.best_cost[y] < UNREACHED
            ==> st.best_cost[y] == p.reduced(st.best_pred[y], y) && p.state(st.best_pred[y], y)
            == EdgeState::Available
    &&& forall|x: int, y: int|
        remaining(p, st, y) && p.first <= x < p.dimension && st.in_tree[x] && x != st.curr
            && #[trigger] p.state(x, y) == EdgeState::Available ==> st.best_cost[y] <= p.reduced(
            x,
            y,
        )
    &&& forall|y: int| 0 <= y < p.dimension ==> FORCED <= #[trigger] st.best_cost[y] <= UNREACHED
}

/// What the costs say once the edges from the node that joined last have
/// been looked at: the same as [`keyed`], for all nodes of the tree.
pub open spec fn relaxed_keyed(p: TreeProblem, st: PrimState) -> bool {
    &&& forall|y: int|
        remaining(p, st, y) && FORCED < #[trigger] relaxed_cost(p, st, y) < UNREACHED
            ==> relaxed_cost(p, st, y) == p.reduced(relaxed_pred(p, st, y), y) && p.state(
            relaxed_pred(p, st, y),
            y,
        ) == EdgeState::Available
    &&& forall|x: int, y: int|
        remaining(p, st, y) && p.first <= x < p.dimension && st.in_tree[x] && #[trigger] p.state(
            x,
            y,
        ) == EdgeState::Available ==> relaxed_cost(p, st, y) <= p.reduced(x, y)
    &&& forall|x: int, y: int|
        remaining(p, st, y) && p.first <= x < p.dimension && st.in_tree[x] && #[trigger] p.state(
            x,
            y,
        ) == EdgeState::Fixed ==> relaxed_cost(p, st, y) == FORCED
    &&& forall|y: int|
        0 <= y < p.dimension ==> FORCED <= #[trigger] relaxed_cost(p, st, y) <= UNREACHED
}

/// Looking at the edges from the node that joined last keeps the costs
/// telling of the edges that leave the tree.
pub proof fn lemma_relaxing_keeps_keyed(p: TreeProblem, st: PrimState, rounds: int)
    requires
        p.wf(),
        grown(p, st, rounds),
        keyed(p, st),
        forall|v: int| !forced_twice(p, st, v),
    ensures
        relaxed_keyed(p, st),
{
    assert forall|y: int|
        remaining(p, st, y) && FORCED < #[trigger] relaxed_cost(p, st, y)
            < UNREACHED implies relaxed_cost(p, st, y) == p.reduced(relaxed_pred(p, st, y), y)
        && p.state(relaxed_pred(p, st, y), y) == EdgeState::Available by {
        if !improves(p, st, y) {
            assert(FORCED < st.best_cost[y] < UNREACHED);
        }
    }
    assert forall|x: int, y: int|
        remaining(p, st, y) && p.first <= x < p.dimension && st.in_tree[x] && #[trigger] p.state(
            x,
            y,
        ) == EdgeState::Available implies relaxed_cost(p, st, y) <= p.reduced(x, y) by {
        lemma_reduced_is_finite(p, st.curr, y);
        lemma_reduced_is_finite(p, x, y);
        assert(FORCED <= st.best_cost[y]);
        if x != st.curr {
            assert(st.best_cost[y] <= p.reduced(x, y));
        }
    }
    assert forall|x: int, y: int|
        remaining(p, st, y) && p.first <= x < p.dimension && st.in_tree[x] && #[trigger] p.state(
            x,
            y,
        ) == EdgeState::Fixed implies relaxed_cost(p, st, y) == FORCED by {
        assert(!forced_twice(p, st, y));
        lemma_reduced_is_finite(p, st.curr, y);
        if x != st.curr {
            assert(st.best_cost[y] == FORCED);
        }
    }
    assert forall|y: int| 0 <= y < p.dimension implies FORCED <= #[trigger] relaxed_cost(p, st, y)
        <= UNREACHED by {
        lemma_reduced_is_finite(p, st.curr, y);
        assert(FORCED <= st.best_cost[y] <= UNREACHED);
    }
}

/// A round that succeeds keeps the costs telling of the edges that leave
/// the tree.
pub proof fn lemma_round_keeps_keyed(p: TreeProblem, st: PrimState, rounds: int)
    requires
        p.wf(),
        grown(p, st, rounds),
        keyed(p, st),
        prim_round(p, st) is Some,
    ensures
        keyed(p, prim_round(p, st)->0),
{
    assert(!exists|v: int| forced_twice(p, st, v));
    lemma_relaxing_keeps_keyed(p, st, rounds);
    let costs = Seq::new(p.dimension as nat, |v: int| relaxed_cost(p, st, v));
    let preds = Seq::new(p.dimension as nat, |v: int| relaxed_pred(p, st, v));
    let after = prim_round(p, st)->0;
    let next = cheapest_below(costs, st.in_tree, p.first, p.dimension)->0;
    lemma_cheapest_is_reached(costs, st.in_tree, p.first, p.dimension);
    assert(after.best_cost == costs);
    assert(after.best_pred == preds);
    assert(after.in_tree == st.in_tree.update(next, true));
    assert forall|y: int|
        remaining(p, after, y) && FORCED < #[trigger] after.best_cost[y]
            < UNREACHED implies after.best_cost[y] == p.reduced(after.best_pred[y], y) && p.state(
        after.best_pred[y],
        y,
    ) == EdgeState::Available by {
        assert(remaining(p, st, y));
        assert(FORCED < relaxed_cost(p, st, y) < UNREACHED);
    }
    assert forall|x: int, y: int|
        remaining(p, after, y) && p.first <= x < p.dimension && after.in_tree[x] && x != after.curr
            && #[trigger] p.state(x, y) == EdgeState::Available implies after.best_cost[y]
        <= p.reduced(x, y) by {
        assert(remaining(p, st, y));
        assert(st.in_tree[x]);
        assert(relaxed_cost(p, st, y) <= p.reduced(x, y));
    }
    assert forall|y: int| 0 <= y < p.dimension implies FORCED <= #[trigger] after.best_cost[y]
        <= UNREACHED by {
        assert(FORCED <= relaxed_cost(p, st, y) <= UNREACHED);
    }
}

/// After rounds that all succeeded the costs tell of the edges that leave
/// the tree.
pub proof fn lemma_rounds_are_keyed(p: TreeProblem, rounds: nat)
    requires
        p.wf(),
        prim_rounds(p, rounds) is Some,
    ensures
        keyed(p, prim_rounds(p, rounds)->0),
    decreases rounds,
{
    if rounds > 0 {
        lemma_earlier_rounds_succeeded(
            p,
            (rounds - 1) as nat,
            rounds,
        );
        lemma_rounds_are_keyed(p, (rounds - 1) as nat);
        lemma_rounds_are_grown(p, (rounds - 1) as nat);
        lemma_round_keeps_keyed(p, prim_rounds(p, (rounds - 1) as nat)->0, rounds - 1);
    }
}

/// Whether the two ends of `edge` lie on different sides.
pub open spec fn crosses(edge: UnEdge, side: Seq<bool>) -> bool {
    side[edge.from.0 as int] != side[edge.to.0 as int]
}

/// Whether `side` splits the nodes to span: it holds one of them and lacks
/// another.
pub open spec fn splits(p: TreeProblem, side: Seq<bool>) -> bool {
    &&& side.len() == p.dimension
    &&& exists|x: int| p.first <= x < p.dimension && #[trigger] side[x]
    &&& exists|x: int| p.first <= x < p.dimension && !#[trigger] side[x]
}

/// Whether one of `edges` crosses from one side to the other.
pub open spec fn is_crossed(edges: Seq<UnEdge>, side: Seq<bool>) -> bool {
    exists|i: int| 0 <= i < edges.len() && crosses(#[trigger] edges[i], side)
}

/// Whether `edges` connects the nodes to span: however the nodes are split
/// in two, an edge crosses from one side to the other.
pub open spec fn connected(p: TreeProblem, edges: Seq<UnEdge>) -> bool {
    forall|side: Seq<bool>| #[trigger] splits(p, side) ==> is_crossed(edges, side)
}

/// Whether `edges` are edges between the nodes to span that the edge
/// states admit together: none is `Excluded`, and every `Fixed` edge is
/// among them.
pub open spec fn feasible(p: TreeProblem, edges: Seq<UnEdge>) -> bool {
    &&& forall|i: int|
        0 <= i < edges.len() ==> p.first <= (#[trigger] edges[i]).from.0 < p.dimension && p.first
            <= edges[i].to.0 < p.dimension && p.state(
            edges[i].from.0 as int,
            edges[i].to.0 as int,
        ) != EdgeState::Excluded
    &&& forall|u: int, v: int|
        p.first <= u < p.dimension && p.first <= v < p.dimension && u != v && #[trigger] is_fixed(
            p,
            u,
            v,
        ) ==> has_edge(edges, u, v)
}

/// The sum of the reduced distances of `edges`.
pub open spec fn tree_cost(p: TreeProblem, edges: Seq<UnEdge>) -> int
    decreases edges.len(),
{
    if edges.len() == 0 {
        0
    } else {
        tree_cost(p, edges.drop_last()) + p.reduced(
            edges.last().from.0 as int,
            edges.last().to.0 as int,
        )
    }
}

/// Whether no edge between two nodes outside the tree leaves `zone`.
pub open spec fn closed_in(st: PrimState, edges: Seq<UnEdge>, zone: Seq<bool>) -> bool {
    &&& zone.len() == st.in_tree.len()
    &&& forall|i: int|
        0 <= i < edges.len() && !st.in_tree[(#[trigger] edges[i]).from.0 as int]
            && !st.in_tree[edges[i].to.0 as int] ==> zone[edges[i].from.0 as int]
            == zone[edges[i].to.0 as int]
}

/// Whether `y` hangs together with `v` outside the tree: it lies in every
/// zone with `v` that no edge between two nodes outside the tree leaves.
pub open spec fn hangs_with(st: PrimState, edges: Seq<UnEdge>, v: int, y: int) -> bool {
    forall|zone: Seq<bool>| #[trigger] closed_in(st, edges, zone) && zone[v] ==> zone[y]
}

/// The nodes that hang together with `v` outside the tree.
pub open spec fn component(st: PrimState, edges: Seq<UnEdge>, v: int) -> Seq<bool> {
    Seq::new(st.in_tree.len(), |y: int| hangs_with(st, edges, v, y))
}

/// The nodes outside the tree.
pub open spec fn outside(p: TreeProblem, st: PrimState) -> Seq<bool> {
    Seq::new(st.in_tree.len(), |x: int| remaining(p, st, x))
}

/// Edges that connect the nodes hold an edge from the tree to a node that
/// hangs together with `v`, for every node `v` outside the tree.
pub proof fn lemma_an_edge_leaves_the_tree(
    p: TreeProblem,
    st: PrimState,
    edges: Seq<UnEdge>,
    v: int,
) -> (found: (int, int, int))
    requires
        p.wf(),
        st.in_tree.len() == p.dimension,
        st.in_tree[p.first],
        remaining(p, st, v),
        connected(p, edges),
        feasible(p, edges),
    ensures
        0 <= found.0 < edges.len(),
        edges[found.0].from.0 == found.1 && edges[found.0].to.0 == found.2 || edges[found.0].from.0
            == found.2 && edges[found.0].to.0 == found.1,
        remaining(p, st, found.1),
        hangs_with(st, edges, v, found.1),
        p.first <= found.2 < p.dimension,
        st.in_tree[found.2],
{
    let zone = component(st, edges, v);
    let rest = outside(p, st);
    assert(closed_in(st, edges, rest));
    assert(zone[v]);
    assert(!zone[p.first]) by {
        if hangs_with(st, edges, v, p.first) {
            assert(rest[v]);
            assert(rest[p.first]);
        }
    }
    assert(splits(p, zone));
    assert(is_crossed(edges, zone));
    let j = choose|j: int| 0 <= j < edges.len() && crosses(#[trigger] edges[j], zone);
    let from = edges[j].from.0 as int;
    let to = edges[j].to.0 as int;
    let (y, z) = if zone[from] {
        (from, to)
    } else {
        (to, from)
    };
    assert(zone[y] && !zone[z]);
    assert(hangs_with(st, edges, v, y));
    assert(rest[y]) by {
        assert(rest[v]);
    }
    if !st.in_tree[z] {
        assert forall|other: Seq<bool>| #[trigger]
            closed_in(st, edges, other) && other[v] implies other[z] by {
            assert(other[y]);
            assert(other[edges[j].from.0 as int] == other[edges[j].to.0 as int]);
        }
        assert(hangs_with(st, edges, v, z));
    }
    (j, y, z)
}

/// Where no edge of a grown tree crosses, all its nodes lie on the side of
/// its root.
pub proof fn lemma_tree_on_one_side(tree: Seq<UnEdge>, root: int, side: Seq<bool>, k: int)
    requires
        grows_from(tree, root),
        0 <= k <= tree.len(),
        forall|i: int| 0 <= i < k ==> !crosses(#[trigger] tree[i], side),
    ensures
        forall|node: int| reaches(tree, root, k, node) ==> side[node] == side[root],
    decreases k,
{
    if k > 0 {
        lemma_tree_on_one_side(tree, root, side, k - 1);
        assert forall|node: int| reaches(tree, root, k, node) implies side[node] == side[root] by {
            if node != root {
                let j = choose|j: int| 0 <= j < k && (#[trigger] tree[j]).to.0 == node;
                if j < k - 1 {
                    assert(reaches(tree, root, k - 1, node));
                } else {
                    assert(!crosses(tree[j], side));
                    assert(reaches(tree, root, j, tree[j].from.0 as int));
                }
            }
        }
    }
}

/// The edges with the edge at `j` taken out, the edge at `t` moved to its
/// place, and `edge` put at `t`.
pub open spec fn replaced(edges: Seq<UnEdge>, t: int, j: int, edge: UnEdge) -> Seq<UnEdge> {
    edges.update(j, edges[t]).update(t, edge)
}

/// An edge from the tree to a node that hangs together with `v` can give
/// way to an edge from the tree to `v` without the nodes falling apart.
#[verifier::rlimit(60)]
pub proof fn lemma_exchange_keeps_connected(
    p: TreeProblem,
    st: PrimState,
    edges: Seq<UnEdge>,
    j: int,
    y: int,
    z: int,
    edge: UnEdge,
)
    requires
        p.wf(),
        st.in_tree.len() == p.dimension,
        shaped(p, st),
        connected(p, edges),
        feasible(p, edges),
        st.tree.len() <= j < edges.len(),
        forall|i: int| 0 <= i < st.tree.len() ==> #[trigger] edges[i] == st.tree[i],
        edges[j].from.0 == y && edges[j].to.0 == z || edges[j].from.0 == z && edges[j].to.0 == y,
        remaining(p, st, y),
        hangs_with(st, edges, edge.to.0 as int, y),
        p.first <= z < p.dimension,
        st.in_tree[z],
        p.first <= edge.from.0 < p.dimension,
        st.in_tree[edge.from.0 as int],
        remaining(p, st, edge.to.0 as int),
    ensures
        connected(p, replaced(edges, st.tree.len() as int, j, edge)),
{
    let t = st.tree.len() as int;
    let after = replaced(edges, t, j, edge);
    let v = edge.to.0 as int;
    let pred = edge.from.0 as int;
    assert forall|side: Seq<bool>| #[trigger] splits(p, side) implies is_crossed(after, side) by {
        if !is_crossed(after, side) {
            assert(!crosses(after[t], side));
            assert(!crosses(after[j], side));
            assert forall|i: int| 0 <= i < edges.len() && i != j implies !crosses(
                #[trigger] edges[i],
                side,
            ) by {
                if i == t {
                    assert(after[j] == edges[t]);
                } else {
                    assert(after[i] == edges[i]);
                }
            }
            // The tree lies on one side.
            assert forall|i: int| 0 <= i < t implies !crosses(#[trigger] st.tree[i], side) by {
                assert(edges[i] == st.tree[i]);
            }
            lemma_tree_on_one_side(st.tree, p.first, side, t);
            assert(st.in_tree[z] == reaches(st.tree, p.first, t, z));
            assert(st.in_tree[pred] == reaches(st.tree, p.first, t, pred));
            assert(side[z] == side[p.first]);
            assert(side[pred] == side[p.first]);
            // What hangs together with `v` lies on one side.
            let zone = Seq::new(
                p.dimension as nat,
                |x: int| remaining(p, st, x) && side[x] == side[v],
            );
            assert forall|i: int|
                0 <= i < edges.len() && !st.in_tree[(#[trigger] edges[i]).from.0 as int]
                    && !st.in_tree[edges[i].to.0 as int] implies zone[edges[i].from.0 as int]
                == zone[edges[i].to.0 as int] by {
                assert(i != j);
                assert(!crosses(edges[i], side));
            }
            assert(closed_in(st, edges, zone));
            assert(zone[v]);
            assert(zone[y]);
            assert(side[y] == side[v]);
            assert(after[t] == edge);
            assert(side[pred] == side[v]);
            assert(!crosses(edges[j], side));
            assert(is_crossed(edges, side));
            let i = choose|i: int| 0 <= i < edges.len() && crosses(#[trigger] edges[i], side);
            assert(false);
        }
    }
}

/// One edge put in the place of another changes the cost by the difference
/// of their reduced distances.
pub proof fn lemma_cost_of_update(p: TreeProblem, edges: Seq<UnEdge>, i: int, edge: UnEdge)
    requires
        0 <= i < edges.len(),
    ensures
        tree_cost(p, edges.update(i, edge)) == tree_cost(p, edges) - p.reduced(
            edges[i].from.0 as int,
            edges[i].to.0 as int,
        ) + p.reduced(edge.from.0 as int, edge.to.0 as int),
    decreases edges.len(),
{
    let updated = edges.update(i, edge);
    if i == edges.len() - 1 {
        assert(updated.drop_last() =~= edges.drop_last());
    } else {
        assert(updated.drop_last() =~= edges.drop_last().update(i, edge));
        lemma_cost_of_update(p, edges.drop_last(), i, edge);
    }
}

/// What [`replaced`] does to the cost.
pub proof fn lemma_cost_of_replaced(
    p: TreeProblem,
    edges: Seq<UnEdge>,
    t: int,
    j: int,
    edge: UnEdge,
)
    requires
        0 <= t <= j < edges.len(),
    ensures
        tree_cost(p, replaced(edges, t, j, edge)) == tree_cost(p, edges) - p.reduced(
            edges[j].from.0 as int,
            edges[j].to.0 as int,
        ) + p.reduced(edge.from.0 as int, edge.to.0 as int),
{
    let moved = edges.update(j, edges[t]);
    lemma_cost_of_update(p, edges, j, edges[t]);
    lemma_cost_of_update(p, moved, t, edge);
    assert(moved[t] == edges[t]);
}

/// What [`replaced`] keeps of the edges being admitted by the edge states.
pub proof fn lemma_replaced_is_feasible(
    p: TreeProblem,
    edges: Seq<UnEdge>,
    t: int,
    j: int,
    edge: UnEdge,
)
    requires
        0 <= t <= j < edges.len(),
        feasible(p, edges),
        p.first <= edge.from.0 < p.dimension,
        p.first <= edge.to.0 < p.dimension,
        p.state(edge.from.0 as int, edge.to.0 as int) != EdgeState::Excluded,
        !is_fixed(p, edges[j].from.0 as int, edges[j].to.0 as int) || (edges[j].from.0
            == edge.from.0 && edges[j].to.0 == edge.to.0) || (edges[j].from.0 == edge.to.0
            && edges[j].to.0 == edge.from.0),
        is_fixed(p, edges[j].from.0 as int, edges[j].to.0 as int) == is_fixed(
            p,
            edges[j].to.0 as int,
            edges[j].from.0 as int,
        ),
    ensures
        feasible(p, replaced(edges, t, j, edge)),
{
    let after = replaced(edges, t, j, edge);
    assert forall|i: int| 0 <= i < after.len() implies p.first <= (#[trigger] after[i]).from.0
        < p.dimension && p.first <= after[i].to.0 < p.dimension && p.state(
        after[i].from.0 as int,
        after[i].to.0 as int,
    ) != EdgeState::Excluded by {
        if i == t {
        } else if i == j {
            assert(after[i] == edges[t]);
        } else {
            assert(after[i] == edges[i]);
        }
    }
    assert forall|u: int, v: int|
        p.first <= u < p.dimension && p.first <= v < p.dimension && u != v && #[trigger] is_fixed(
            p,
            u,
            v,
        ) implies has_edge(after, u, v) by {
        assert(has_edge(edges, u, v));
        let i = choose|i: int|
            0 <= i < edges.len() && ((#[trigger] edges[i]).from.0 == u && edges[i].to.0 == v
                || edges[i].from.0 == v && edges[i].to.0 == u);
        if i == j {
            assert(after[t] == edge);
            assert(after[t].from.0 == u && after[t].to.0 == v || after[t].from.0 == v
                && after[t].to.0 == u);
        } else if i == t {
            assert(after[j] == edges[t]);
            assert(after[j].from.0 == u && after[j].to.0 == v || after[j].from.0 == v
                && after[j].to.0 == u);
        } else {
            assert(after[i] == edges[i]);
            assert(after[i].from.0 == u && after[i].to.0 == v || after[i].from.0 == v
                && after[i].to.0 == u);
        }
    }
}

/// Whether `edges` starts with the edges of the tree.
pub open spec fn starts_with(edges: Seq<UnEdge>, tree: Seq<UnEdge>) -> bool {
    &&& tree.len() <= edges.len()
    &&& forall|i: int| 0 <= i < tree.len() ==> #[trigger] edges[i] == tree[i]
}

/// One round more: edges that connect the nodes, are admitted by the edge
/// states and start with the tree of the kernel can be changed to start
/// with the tree after the next round, at no higher cost.
#[verifier::rlimit(80)]
pub proof fn lemma_one_more_edge(
    p: TreeProblem,
    st: PrimState,
    rounds: int,
    edges: Seq<UnEdge>,
) -> (changed: Seq<UnEdge>)
    requires
        p.wf(),
        is_symmetric(p),
        grown(p, st, rounds),
        shaped(p, st),
        keyed(p, st),
        prim_round(p, st) is Some,
        rounds < edges.len(),
        starts_with(edges, st.tree),
        connected(p, edges),
        feasible(p, edges),
    ensures
        changed.len() == edges.len(),
        starts_with(changed, prim_round(p, st)->0.tree),
        connected(p, changed),
        feasible(p, changed),
        tree_cost(p, changed) <= tree_cost(p, edges),
{
    let costs = Seq::new(p.dimension as nat, |v: int| relaxed_cost(p, st, v));
    let preds = Seq::new(p.dimension as nat, |v: int| relaxed_pred(p, st, v));
    let after = prim_round(p, st)->0;
    let next = cheapest_below(costs, st.in_tree, p.first, p.dimension)->0;
    lemma_cheapest_is_reached(costs, st.in_tree, p.first, p.dimension);
    lemma_cheapest_is_least(costs, st.in_tree, p.first, p.dimension);
    assert(!exists|v: int| forced_twice(p, st, v));
    lemma_relaxing_keeps_keyed(p, st, rounds);
    let pred = preds[next];
    let edge = UnEdge { from: Node(pred as usize), to: Node(next as usize) };
    let t = st.tree.len() as int;
    assert(after.tree == st.tree.push(edge));
    assert(remaining(p, st, next));
    assert(costs[next] == relaxed_cost(p, st, next));
    assert(p.first <= pred < p.dimension && st.in_tree[pred] && p.state(pred, next)
        != EdgeState::Excluded && (costs[next] == FORCED ==> p.state(pred, next)
        == EdgeState::Fixed)) by {
        assert(!forced_twice(p, st, next));
        if improves(p, st, next) {
        } else {
            assert(st.best_cost[next] < UNREACHED);
        }
    }
    assert(edge.from.0 == pred && edge.to.0 == next);
    let (j, y, z) = if costs[next] == FORCED {
        assert(p.state(next, pred) == p.state(pred, next));
        assert(is_fixed(p, pred, next));
        assert(has_edge(edges, pred, next));
        let j = choose|j: int|
            0 <= j < edges.len() && ((#[trigger] edges[j]).from.0 == pred && edges[j].to.0 == next
                || edges[j].from.0 == next && edges[j].to.0 == pred);
        (j, next, pred)
    } else {
        lemma_an_edge_leaves_the_tree(p, st, edges, next)
    };
    assert(j >= t) by {
        if j < t {
            assert(edges[j] == st.tree[j]);
            assert(st.in_tree[st.tree[j].from.0 as int] && st.in_tree[st.tree[j].to.0 as int]);
        }
    }
    assert(hangs_with(st, edges, next, y));
    let changed = replaced(edges, t, j, edge);
    lemma_exchange_keeps_connected(p, st, edges, j, y, z, edge);
    lemma_cost_of_replaced(p, edges, t, j, edge);
    assert(p.state(y, z) == p.state(z, y));
    assert(p.reduced(y, z) == p.reduced(z, y));
    assert(p.reduced(pred, next) == p.reduced(next, pred));
    if costs[next] == FORCED {
        lemma_replaced_is_feasible(p, edges, t, j, edge);
    } else {
        lemma_reduced_is_finite(p, pred, next);
        assert(costs[y] == relaxed_cost(p, st, y));
        assert(costs[next] <= costs[y]);
        assert(p.state(edges[j].from.0 as int, edges[j].to.0 as int) != EdgeState::Excluded);
        assert(p.state(z, y) != EdgeState::Excluded);
        if p.state(z, y) == EdgeState::Fixed {
            assert(relaxed_cost(p, st, y) == FORCED);
        }
        assert(p.state(z, y) == EdgeState::Available);
        assert(relaxed_cost(p, st, y) <= p.reduced(z, y));
        assert(FORCED < relaxed_cost(p, st, next) < UNREACHED);
        assert(relaxed_cost(p, st, next) == p.reduced(relaxed_pred(p, st, next), next));
        assert(!is_fixed(p, y, z) && !is_fixed(p, z, y));
        lemma_replaced_is_feasible(p, edges, t, j, edge);
    }
    assert forall|i: int| 0 <= i < after.tree.len() implies #[trigger] changed[i]
        == after.tree[i] by {
        if i < t {
            assert(changed[i] == edges[i]);
            assert(after.tree[i] == st.tree[i]);
        }
    }
    changed
}

/// Any edges that connect the nodes and are admitted by the edge states,
/// one less than there are nodes, can be changed into edges that start with
/// the tree of the kernel after `rounds` rounds, at no higher cost.
pub proof fn lemma_kernel_catches_up(p: TreeProblem, edges: Seq<UnEdge>, rounds: nat) -> (changed:
    Seq<UnEdge>)
    requires
        p.wf(),
        is_symmetric(p),
        prim_rounds(p, rounds) is Some,
        rounds <= edges.len(),
        connected(p, edges),
        feasible(p, edges),
    ensures
        changed.len() == edges.len(),
        starts_with(changed, prim_rounds(p, rounds)->0.tree),
        connected(p, changed),
        feasible(p, changed),
        tree_cost(p, changed) <= tree_cost(p, edges),
    decreases rounds,
{
    if rounds == 0 {
        edges
    } else {
        lemma_earlier_rounds_succeeded(p, (rounds - 1) as nat, rounds);
        let before = lemma_kernel_catches_up(p, edges, (rounds - 1) as nat);
        let st = prim_rounds(p, (rounds - 1) as nat)->0;
        lemma_rounds_are_shaped(p, (rounds - 1) as nat);
        lemma_rounds_are_keyed(p, (rounds - 1) as nat);
        lemma_one_more_edge(p, st, rounds - 1, before)
    }
}

/// The spanning tree of the kernel costs no more than any edges that
/// connect the nodes to span and are admitted by the edge states, where
/// there is one edge less than nodes.
pub proof fn lemma_spanning_tree_is_cheapest(p: TreeProblem, edges: Seq<UnEdge>)
    requires
        p.wf(),
        is_symmetric(p),
        spanning_tree(p) is Some,
        edges.len() == p.dimension - p.first - 1,
        connected(p, edges),
        feasible(p, edges),
    ensures
        tree_cost(p, spanning_tree(p)->0) <= tree_cost(p, edges),
{
    let rounds = (p.dimension - p.first - 1) as nat;
    let changed = lemma_kernel_catches_up(p, edges, rounds);
    lemma_rounds_are_grown(p, rounds);
    assert(changed =~= spanning_tree(p)->0);
}

/// Whether `edges` is a spanning tree of the nodes to span that the edge
/// states admit: one edge less than nodes, which connect the nodes, none
/// `Excluded` and every `Fixed` edge among them.
pub open spec fn is_spanning_tree(p: TreeProblem, edges: Seq<UnEdge>) -> bool {
    &&& edges.len() == p.dimension - p.first - 1
    &&& connected(p, edges)
    &&& feasible(p, edges)
}

/// Whether no spanning tree that the edge states admit has a lower reduced
/// cost than `tree`.
#[verifier::opaque]
pub open spec fn is_cheapest_spanning_tree(p: TreeProblem, tree: Seq<UnEdge>) -> bool {
    forall|edges: Seq<UnEdge>| #[trigger]
        is_spanning_tree(p, edges) ==> tree_cost(p, tree) <= tree_cost(p, edges)
}

/// Whether the edge states admit no spanning tree.
#[verifier::opaque]
pub open spec fn admits_no_spanning_tree(p: TreeProblem) -> bool {
    forall|edges: Seq<UnEdge>| !#[trigger] is_spanning_tree(p, edges)
}

/// The tree of the kernel is a spanning tree that the edge states admit,
/// where they are the same in both directions.
pub proof fn lemma_kernel_tree_is_a_spanning_tree(p: TreeProblem)
    requires
        p.wf(),
        spanning_tree(p) is Some,
        forall|u: int, v: int|
            p.first <= u < p.dimension && p.first <= v < p.dimension ==> #[trigger] p.state(u, v)
                == p.state(v, u),
    ensures
        is_spanning_tree(p, spanning_tree(p)->0),
{
    let tree = spanning_tree(p)->0;
    crate::held_karp::tree_laws::lemma_spanning_tree_is_grown(p);
    crate::held_karp::tree_laws::lemma_spanning_tree_holds_fixed_edges(p);
    assert forall|side: Seq<bool>| #[trigger] splits(p, side) implies is_crossed(tree, side) by {
        if !is_crossed(tree, side) {
            lemma_tree_on_one_side(tree, p.first, side, tree.len() as int);
            let x = choose|x: int| p.first <= x < p.dimension && #[trigger] side[x];
            let y = choose|y: int| p.first <= y < p.dimension && !#[trigger] side[y];
            assert(reaches(tree, p.first, tree.len() as int, x));
            assert(reaches(tree, p.first, tree.len() as int, y));
        }
    }
}

/// The tree of the kernel is a cheapest spanning tree.
pub proof fn lemma_kernel_tree_is_cheapest(p: TreeProblem)
    requires
        p.wf(),
        is_symmetric(p),
        spanning_tree(p) is Some,
    ensures
        is_cheapest_spanning_tree(p, spanning_tree(p)->0),
{
    reveal(is_cheapest_spanning_tree);
    assert forall|edges: Seq<UnEdge>| #[trigger] is_spanning_tree(p, edges) implies tree_cost(
        p,
        spanning_tree(p)->0,
    ) <= tree_cost(p, edges) by {
        lemma_spanning_tree_is_cheapest(p, edges);
    }
}

} // verus!
