//! What holds of every spanning tree and 1-tree that the kernel builds.

use crate::edge::UnEdge;
use crate::held_karp::edge_state::EdgeState;
use crate::held_karp::trees::cheapest_below;
use crate::held_karp::trees::forced_twice;
use crate::held_karp::trees::improves;
use crate::held_karp::trees::lemma_failure_is_final;
use crate::held_karp::trees::links_below;
use crate::held_karp::trees::no_links;
use crate::held_karp::trees::one_tree;
use crate::held_karp::trees::prim_round;
use crate::held_karp::trees::prim_rounds;
use crate::held_karp::trees::prim_start;
use crate::held_karp::trees::relaxed_cost;
use crate::held_karp::trees::relaxed_pred;
use crate::held_karp::trees::remaining;
use crate::held_karp::trees::spanning_tree;
use crate::held_karp::trees::OneTreeProblem;
use crate::held_karp::trees::PrimState;
use crate::held_karp::trees::TreeProblem;
use crate::held_karp::trees::FORCED;
use crate::held_karp::trees::UNREACHED;
use crate::node::Node;
use vstd::prelude::*;

verus! {

/// Where no node outside the tree has been reached, there is no cheapest
/// node.
pub proof fn lemma_nothing_reached(costs: Seq<int>, in_tree: Seq<bool>, first: int, k: int)
    requires
        forall|v: int| first <= v < k && !in_tree[v] ==> #[trigger] costs[v] >= UNREACHED,
    ensures
        cheapest_below(costs, in_tree, first, k) is None,
    decreases k - first,
{
    if k > first {
        lemma_nothing_reached(costs, in_tree, first, k - 1);
    }
}

/// Where every edge between the nodes to span is `Excluded`, and there are
/// at least two such nodes, there is no spanning tree.
pub proof fn lemma_all_excluded_has_no_spanning_tree(p: TreeProblem)
    requires
        p.wf(),
        p.first + 2 <= p.dimension,
        forall|from: int, to: int|
            p.first <= from < p.dimension && p.first <= to < p.dimension ==> #[trigger] p.state(
                from,
                to,
            ) == EdgeState::Excluded,
    ensures
        spanning_tree(p) is None,
{
    let st = prim_start(p);
    let costs = Seq::new(p.dimension as nat, |v: int| relaxed_cost(p, st, v));
    assert forall|v: int| p.first <= v < p.dimension && !st.in_tree[v] implies #[trigger] costs[v]
        >= UNREACHED by {
        assert(p.state(st.curr, v) == EdgeState::Excluded);
    }
    lemma_nothing_reached(costs, st.in_tree, p.first, p.dimension);
    assert forall|v: int| !forced_twice(p, st, v) by {
        if remaining(p, st, v) {
            assert(p.state(st.curr, v) == EdgeState::Excluded);
        }
    }
    assert(prim_round(p, st) is None);
    assert(prim_rounds(p, 0) == Some(st));
    assert(prim_rounds(p, 1) is None);
    lemma_failure_is_final(p, 1, (p.dimension - p.first - 1) as nat);
}

/// Where every edge at node 0 is `Excluded`, the scan of node 0 finds no
/// edge.
pub proof fn lemma_no_links_through_excluded_edges(p: OneTreeProblem, k: int)
    requires
        forall|to: int| 1 <= to < k ==> #[trigger] p.state(0, to) == EdgeState::Excluded,
    ensures
        links_below(p, k) == Some(no_links()),
    decreases k,
{
    if k > 1 {
        lemma_no_links_through_excluded_edges(p, k - 1);
        assert(p.state(0, k - 1) == EdgeState::Excluded);
    }
}

/// Where every edge is `Excluded`, there is no 1-tree.
pub proof fn lemma_all_excluded_has_no_one_tree(p: OneTreeProblem)
    requires
        p.wf(),
        forall|from: int, to: int|
            0 <= from < p.dimension && 0 <= to < p.dimension ==> #[trigger] p.state(from, to)
                == EdgeState::Excluded,
    ensures
        one_tree(p) is None,
{
    lemma_no_links_through_excluded_edges(p, p.dimension);
}

/// The cheapest node is a node outside the tree that has been reached.
pub proof fn lemma_cheapest_is_reached(costs: Seq<int>, in_tree: Seq<bool>, first: int, k: int)
    ensures
        cheapest_below(costs, in_tree, first, k) matches Some(v) ==> first <= v < k && !in_tree[v]
            && costs[v] < UNREACHED,
    decreases k - first,
{
    if k > first {
        lemma_cheapest_is_reached(costs, in_tree, first, k - 1);
    }
}

/// The number of nodes from `first` up to `k` that are in the tree.
pub open spec fn members(in_tree: Seq<bool>, first: int, k: int) -> int
    decreases k - first,
{
    if k <= first {
        0
    } else {
        members(in_tree, first, k - 1) + if in_tree[k - 1] {
            1int
        } else {
            0int
        }
    }
}

/// A node that joins the tree makes one member more.
pub proof fn lemma_members_grow(in_tree: Seq<bool>, first: int, k: int, v: int)
    requires
        0 <= first <= k <= in_tree.len(),
        first <= v < in_tree.len(),
        !in_tree[v],
    ensures
        members(in_tree.update(v, true), first, k) == members(in_tree, first, k) + if v < k {
            1int
        } else {
            0int
        },
    decreases k - first,
{
    if k > first {
        lemma_members_grow(in_tree, first, k - 1, v);
    }
}

/// There are no more members than nodes, and where there are as many,
/// every node is a member.
pub proof fn lemma_members_full(in_tree: Seq<bool>, first: int, k: int)
    requires
        0 <= first <= k <= in_tree.len(),
    ensures
        0 <= members(in_tree, first, k) <= k - first,
        members(in_tree, first, k) == k - first ==> forall|v: int|
            first <= v < k ==> #[trigger] in_tree[v],
    decreases k - first,
{
    if k > first {
        lemma_members_full(in_tree, first, k - 1);
    }
}

/// Whether `edges` holds the edge between `a` and `b`, in either
/// orientation.
pub open spec fn has_edge(edges: Seq<UnEdge>, a: int, b: int) -> bool {
    exists|i: int|
        0 <= i < edges.len() && ((#[trigger] edges[i]).from.0 == a && edges[i].to.0 == b
            || edges[i].from.0 == b && edges[i].to.0 == a)
}

/// Whether `node` is the root or an end of one of the first `k` edges.
pub open spec fn reaches(edges: Seq<UnEdge>, root: int, k: int, node: int) -> bool {
    node == root || exists|j: int| 0 <= j < k && (#[trigger] edges[j]).to.0 == node
}

/// Whether `edges` grows a tree from `root`: every edge leads from a node
/// that the edges before it reach to a node that they do not reach.
pub open spec fn grows_from(edges: Seq<UnEdge>, root: int) -> bool {
    forall|i: int|
        0 <= i < edges.len() ==> reaches(edges, root, i, (#[trigger] edges[i]).from.0 as int)
            && !reaches(edges, root, i, edges[i].to.0 as int)
}

/// What holds of the bookkeeping after `rounds` rounds that all succeeded.
pub open spec fn grown(p: TreeProblem, st: PrimState, rounds: int) -> bool {
    &&& st.in_tree.len() == p.dimension
    &&& st.best_cost.len() == p.dimension
    &&& st.best_pred.len() == p.dimension
    &&& p.first <= st.curr < p.dimension
    &&& st.in_tree[st.curr]
    &&& st.in_tree[p.first]
    &&& forall|v: int| 0 <= v < p.first ==> !#[trigger] st.in_tree[v]
    &&& members(st.in_tree, p.first, p.dimension) == rounds + 1
    &&& st.tree.len() == rounds
    // A forced node is forced by a `Fixed` edge from its predecessor, which
    // is in the tree and is not the node that joined last.
    &&& forall|v: int|
        remaining(p, st, v) && #[trigger] st.best_cost[v] == FORCED ==> p.first
            <= st.best_pred[v] < p.dimension && st.in_tree[st.best_pred[v]] && st.best_pred[v]
            != st.curr && p.state(st.best_pred[v], v) == EdgeState::Fixed
    // A `Fixed` edge from a node of the tree, other than the one that joined
    // last, forces its other end, and is the only such edge there.
    &&& forall|u: int, v: int|
        remaining(p, st, v) && p.first <= u < p.dimension && st.in_tree[u] && u != st.curr
            && #[trigger] p.state(u, v) == EdgeState::Fixed ==> st.best_cost[v] == FORCED
            && st.best_pred[v] == u
    // Every edge of the tree joins two of its nodes and is not `Excluded`.
    &&& forall|i: int|
        0 <= i < st.tree.len() ==> p.first <= (#[trigger] st.tree[i]).from.0 < p.dimension
            && p.first <= st.tree[i].to.0 < p.dimension && st.in_tree[st.tree[i].from.0 as int]
            && st.in_tree[st.tree[i].to.0 as int] && p.state(
            st.tree[i].from.0 as int,
            st.tree[i].to.0 as int,
        ) != EdgeState::Excluded
    // A reached node is reached by an edge from the tree that is not
    // `Excluded`.
    &&& forall|v: int|
        remaining(p, st, v) && #[trigger] st.best_cost[v] < UNREACHED ==> p.first
            <= st.best_pred[v] < p.dimension && st.in_tree[st.best_pred[v]] && p.state(
            st.best_pred[v],
            v,
        ) != EdgeState::Excluded
    // An edge that is `Fixed` in both directions between two nodes of the
    // tree is an edge of the tree.
    &&& forall|u: int, v: int|
        p.first <= u < p.dimension && p.first <= v < p.dimension && st.in_tree[u] && st.in_tree[v]
            && u != v && #[trigger] p.state(u, v) == EdgeState::Fixed && #[trigger] p.state(v, u)
            == EdgeState::Fixed ==> has_edge(st.tree, u, v)
}

/// The bookkeeping before the first round is as it should be.
pub proof fn lemma_start_is_grown(p: TreeProblem)
    requires
        p.wf(),
    ensures
        grown(p, prim_start(p), 0),
{
    let st = prim_start(p);
    lemma_members_of_start(p, p.dimension);
}

/// Before the first round the tree has one member, the node `first`.
pub proof fn lemma_members_of_start(p: TreeProblem, k: int)
    requires
        p.wf(),
        p.first <= k <= p.dimension,
    ensures
        members(prim_start(p).in_tree, p.first, k) == if k > p.first {
            1int
        } else {
            0int
        },
    decreases k - p.first,
{
    if k > p.first {
        lemma_members_of_start(p, k - 1);
    }
}

/// A round that succeeds keeps the bookkeeping as it should be.
#[verifier::rlimit(60)]
pub proof fn lemma_round_keeps_grown(p: TreeProblem, st: PrimState, rounds: int)
    requires
        p.wf(),
        grown(p, st, rounds),
        prim_round(p, st) is Some,
    ensures
        grown(p, prim_round(p, st)->0, rounds + 1),
{
    let costs = Seq::new(p.dimension as nat, |v: int| relaxed_cost(p, st, v));
    let preds = Seq::new(p.dimension as nat, |v: int| relaxed_pred(p, st, v));
    let after = prim_round(p, st)->0;
    let next = cheapest_below(costs, st.in_tree, p.first, p.dimension)->0;
    lemma_cheapest_is_reached(costs, st.in_tree, p.first, p.dimension);
    assert(!exists|v: int| forced_twice(p, st, v));
    assert(after.curr == next);
    assert(after.best_cost == costs);
    assert(after.best_pred == preds);
    assert(after.in_tree == st.in_tree.update(next, true));
    lemma_members_grow(st.in_tree, p.first, p.dimension, next);
    // What the relaxation does to a node outside the tree.
    assert forall|v: int| remaining(p, st, v) implies (#[trigger] costs[v] < UNREACHED ==> p.first
        <= preds[v] < p.dimension && st.in_tree[preds[v]] && p.state(preds[v], v)
        != EdgeState::Excluded) && (costs[v] == FORCED ==> p.first <= preds[v] < p.dimension
        && st.in_tree[preds[v]] && p.state(preds[v], v) == EdgeState::Fixed) by {
        assert(!forced_twice(p, st, v));
        if improves(p, st, v) {
        } else {
            assert(costs[v] == st.best_cost[v]);
        }
    }
    assert forall|u: int, v: int|
        remaining(p, st, v) && p.first <= u < p.dimension && st.in_tree[u] && #[trigger] p.state(
            u,
            v,
        ) == EdgeState::Fixed implies costs[v] == FORCED && preds[v] == u by {
        assert(!forced_twice(p, st, v));
        if u != st.curr {
            assert(st.best_cost[v] == FORCED && st.best_pred[v] == u);
        }
    }
    // The new edge.
    let edge = UnEdge { from: Node(preds[next] as usize), to: Node(next as usize) };
    assert(after.tree == st.tree.push(edge));
    assert(costs[next] < UNREACHED);
    assert(remaining(p, st, next));
    assert forall|i: int| 0 <= i < after.tree.len() implies p.first <= (
    #[trigger] after.tree[i]).from.0 < p.dimension && p.first <= after.tree[i].to.0 < p.dimension
        && after.in_tree[after.tree[i].from.0 as int] && after.in_tree[after.tree[i].to.0 as int]
        && p.state(after.tree[i].from.0 as int, after.tree[i].to.0 as int)
        != EdgeState::Excluded by {
        if i < st.tree.len() {
            assert(after.tree[i] == st.tree[i]);
        }
    }
    assert forall|u: int, v: int|
        p.first <= u < p.dimension && p.first <= v < p.dimension && after.in_tree[u]
            && after.in_tree[v] && u != v && #[trigger] p.state(u, v) == EdgeState::Fixed
            && #[trigger] p.state(v, u) == EdgeState::Fixed implies has_edge(after.tree, u, v) by {
        if u != next && v != next {
            assert(has_edge(st.tree, u, v));
            let i = choose|i: int|
                0 <= i < st.tree.len() && ((#[trigger] st.tree[i]).from.0 == u && st.tree[i].to.0
                    == v || st.tree[i].from.0 == v && st.tree[i].to.0 == u);
            assert(after.tree[i] == st.tree[i]);
        } else if v == next {
            assert(preds[next] == u);
            assert(after.tree[st.tree.len() as int] == edge);
        } else {
            assert(preds[next] == v);
            assert(after.tree[st.tree.len() as int] == edge);
        }
    }
    assert forall|v: int|
        remaining(p, after, v) && #[trigger] after.best_cost[v] == FORCED implies p.first
        <= after.best_pred[v] < p.dimension && after.in_tree[after.best_pred[v]]
        && after.best_pred[v] != after.curr && p.state(after.best_pred[v], v)
        == EdgeState::Fixed by {
        assert(remaining(p, st, v));
        assert(costs[v] == FORCED);
    }
    assert forall|u: int, v: int|
        remaining(p, after, v) && p.first <= u < p.dimension && after.in_tree[u] && u
            != after.curr && #[trigger] p.state(u, v) == EdgeState::Fixed implies after.best_cost[v]
        == FORCED && after.best_pred[v] == u by {
        assert(remaining(p, st, v));
        assert(st.in_tree[u]);
    }
    assert forall|v: int|
        remaining(p, after, v) && #[trigger] after.best_cost[v] < UNREACHED implies p.first
        <= after.best_pred[v] < p.dimension && after.in_tree[after.best_pred[v]] && p.state(
        after.best_pred[v],
        v,
    ) != EdgeState::Excluded by {
        assert(remaining(p, st, v));
        assert(costs[v] < UNREACHED);
    }
}

/// After rounds that all succeeded the bookkeeping is as it should be.
pub proof fn lemma_rounds_are_grown(p: TreeProblem, rounds: nat)
    requires
        p.wf(),
        prim_rounds(p, rounds) is Some,
    ensures
        grown(p, prim_rounds(p, rounds)->0, rounds as int),
    decreases rounds,
{
    if rounds == 0 {
        lemma_start_is_grown(p);
    } else {
        lemma_rounds_are_grown(p, (rounds - 1) as nat);
        lemma_round_keeps_grown(p, prim_rounds(p, (rounds - 1) as nat)->0, rounds - 1);
    }
}

/// Whether the edge between `a` and `b` is `Fixed`, in both directions.
pub open spec fn is_fixed(p: TreeProblem, a: int, b: int) -> bool {
    p.state(a, b) == EdgeState::Fixed && p.state(b, a) == EdgeState::Fixed
}

/// A spanning tree has an edge less than the nodes it spans, uses no
/// `Excluded` edge, and holds every `Fixed` edge between two of these nodes.
pub proof fn lemma_spanning_tree_holds_fixed_edges(p: TreeProblem)
    requires
        p.wf(),
        spanning_tree(p) is Some,
    ensures
        spanning_tree(p)->0.len() == p.dimension - p.first - 1,
        forall|i: int|
            0 <= i < spanning_tree(p)->0.len() ==> p.first <= (
            #[trigger] spanning_tree(p)->0[i]).from.0 < p.dimension && p.first < spanning_tree(
                p,
            )->0[i].to.0 < p.dimension && p.state(
                spanning_tree(p)->0[i].from.0 as int,
                spanning_tree(p)->0[i].to.0 as int,
            ) != EdgeState::Excluded,
        forall|u: int, v: int|
            p.first <= u < p.dimension && p.first <= v < p.dimension && u != v
                && #[trigger] is_fixed(p, u, v) ==> has_edge(spanning_tree(p)->0, u, v),
{
    let rounds = (p.dimension - p.first - 1) as nat;
    lemma_rounds_are_grown(p, rounds);
    let st = prim_rounds(p, rounds)->0;
    lemma_members_full(st.in_tree, p.first, p.dimension);
    lemma_edges_lead_away_from_first(p, rounds);
}

/// No edge of the tree leads to the node that the tree was grown from.
pub proof fn lemma_edges_lead_away_from_first(p: TreeProblem, rounds: nat)
    requires
        p.wf(),
        prim_rounds(p, rounds) is Some,
    ensures
        forall|i: int|
            0 <= i < prim_rounds(p, rounds)->0.tree.len() ==> (#[trigger] prim_rounds(
                p,
                rounds,
            )->0.tree[i]).to.0 != p.first,
    decreases rounds,
{
    if rounds > 0 {
        let before = prim_rounds(p, (rounds - 1) as nat)->0;
        lemma_edges_lead_away_from_first(p, (rounds - 1) as nat);
        lemma_rounds_are_grown(p, (rounds - 1) as nat);
        let costs = Seq::new(p.dimension as nat, |v: int| relaxed_cost(p, before, v));
        lemma_cheapest_is_reached(costs, before.in_tree, p.first, p.dimension);
        let after = prim_rounds(p, rounds)->0;
        assert forall|i: int| 0 <= i < after.tree.len() implies (#[trigger] after.tree[i]).to.0
            != p.first by {
            if i < before.tree.len() {
                assert(after.tree[i] == before.tree[i]);
            }
        }
    }
}

/// The position after `i` on a cycle of `length` positions.
pub open spec fn next_on_cycle(i: int, length: int) -> int {
    if i + 1 == length {
        0
    } else {
        i + 1
    }
}

/// Whether the nodes `cycle`, in this order and back to the first, are a
/// cycle of `Fixed` edges among the nodes to span: at least three different
/// nodes, each joined to the next by an edge that is `Fixed` in both
/// directions.
pub open spec fn is_fixed_cycle(p: TreeProblem, cycle: Seq<int>) -> bool {
    &&& cycle.len() >= 3
    &&& forall|i: int| 0 <= i < cycle.len() ==> p.first <= #[trigger] cycle[i] < p.dimension
    &&& forall|i: int, j: int| 0 <= i < j < cycle.len() ==> cycle[i] != cycle[j]
    &&& forall|i: int|
        0 <= i < cycle.len() ==> is_fixed(
            p,
            #[trigger] cycle[i],
            cycle[next_on_cycle(i, cycle.len() as int)],
        )
}

/// Whether every node of `cycle` is in the tree.
pub open spec fn all_in_tree(st: PrimState, cycle: Seq<int>) -> bool {
    forall|i: int| 0 <= i < cycle.len() ==> st.in_tree[#[trigger] cycle[i]]
}

/// Where rounds succeeded, the rounds before them succeeded.
pub proof fn lemma_earlier_rounds_succeeded(p: TreeProblem, earlier: nat, rounds: nat)
    requires
        earlier <= rounds,
        prim_rounds(p, rounds) is Some,
    ensures
        prim_rounds(p, earlier) is Some,
{
    if prim_rounds(p, earlier) is None {
        lemma_failure_is_final(p, earlier, rounds);
    }
}

/// Where the nodes of a cycle are all in the tree after some rounds, but
/// were not at the start, there is a round in which the last of them
/// joined.
proof fn lemma_last_to_join(p: TreeProblem, cycle: Seq<int>, rounds: nat) -> (round: nat)
    requires
        prim_rounds(p, rounds) is Some,
        all_in_tree(prim_rounds(p, rounds)->0, cycle),
        !all_in_tree(prim_rounds(p, 0)->0, cycle),
    ensures
        round < rounds,
        prim_rounds(p, round) is Some,
        prim_rounds(p, round + 1) is Some,
        !all_in_tree(prim_rounds(p, round)->0, cycle),
        all_in_tree(prim_rounds(p, round + 1)->0, cycle),
    decreases rounds,
{
    lemma_earlier_rounds_succeeded(p, (rounds - 1) as nat, rounds);
    if all_in_tree(prim_rounds(p, (rounds - 1) as nat)->0, cycle) {
        lemma_last_to_join(p, cycle, (rounds - 1) as nat)
    } else {
        (rounds - 1) as nat
    }
}

/// Where the `Fixed` edges close a cycle among the nodes to span, there is
/// no spanning tree.
pub proof fn lemma_fixed_cycle_has_no_spanning_tree(p: TreeProblem, cycle: Seq<int>)
    requires
        p.wf(),
        is_fixed_cycle(p, cycle),
    ensures
        spanning_tree(p) is None,
{
    let rounds = (p.dimension - p.first - 1) as nat;
    if prim_rounds(p, rounds) is Some {
        let k = cycle.len() as int;
        let last = prim_rounds(p, rounds)->0;
        lemma_rounds_are_grown(p, rounds);
        lemma_members_full(last.in_tree, p.first, p.dimension);
        assert(all_in_tree(last, cycle));
        let start = prim_start(p);
        assert(cycle[0] != cycle[1]);
        assert(!start.in_tree[cycle[0]] || !start.in_tree[cycle[1]]);
        assert(!all_in_tree(prim_rounds(p, 0)->0, cycle));
        let round = lemma_last_to_join(p, cycle, rounds);
        let st = prim_rounds(p, round)->0;
        let after = prim_rounds(p, round + 1)->0;
        lemma_rounds_are_grown(p, round);
        assert(after == prim_round(p, st)->0);
        let costs = Seq::new(p.dimension as nat, |v: int| relaxed_cost(p, st, v));
        let next = cheapest_below(costs, st.in_tree, p.first, p.dimension)->0;
        lemma_cheapest_is_reached(costs, st.in_tree, p.first, p.dimension);
        assert(after.in_tree == st.in_tree.update(next, true));
        let i = choose|i: int| 0 <= i < cycle.len() && !st.in_tree[#[trigger] cycle[i]];
        assert(after.in_tree[cycle[i]]);
        assert(cycle[i] == next);
        let j = next_on_cycle(i, k);
        let h = if i == 0 {
            k - 1
        } else {
            i - 1
        };
        assert(next_on_cycle(h, k) == i);
        let a = cycle[j];
        let b = cycle[h];
        assert(is_fixed(p, cycle[i], cycle[j]));
        assert(is_fixed(p, cycle[h], cycle[i]));
        assert(a != next && b != next && a != b) by {
            if i < j {
                assert(cycle[i] != cycle[j]);
            } else {
                assert(cycle[j] != cycle[i]);
            }
            if h < j {
                assert(cycle[h] != cycle[j]);
            } else {
                assert(cycle[j] != cycle[h]);
            }
            if h < i {
                assert(cycle[h] != cycle[i]);
            } else {
                assert(cycle[i] != cycle[h]);
            }
        }
        assert(after.in_tree[a] && after.in_tree[b]);
        assert(st.in_tree[a] && st.in_tree[b]);
        assert(remaining(p, st, next));
        assert(!exists|v: int| forced_twice(p, st, v));
        assert(!forced_twice(p, st, next));
        if a != st.curr && b != st.curr {
            assert(p.state(a, next) == EdgeState::Fixed);
            assert(p.state(b, next) == EdgeState::Fixed);
            assert(st.best_pred[next] == a);
            assert(st.best_pred[next] == b);
        } else if a == st.curr {
            assert(p.state(b, next) == EdgeState::Fixed);
            assert(st.best_cost[next] == FORCED);
            assert(p.state(st.curr, next) == EdgeState::Fixed);
        } else {
            assert(p.state(a, next) == EdgeState::Fixed);
            assert(st.best_cost[next] == FORCED);
            assert(p.state(st.curr, next) == EdgeState::Fixed);
        }
        assert(false);
    }
}

/// Whether the tree of the bookkeeping was grown from `first`, and the
/// nodes marked as in the tree are the nodes that its edges reach.
pub open spec fn shaped(p: TreeProblem, st: PrimState) -> bool {
    &&& grows_from(st.tree, p.first)
    &&& forall|v: int|
        0 <= v < p.dimension ==> #[trigger] st.in_tree[v] == reaches(
            st.tree,
            p.first,
            st.tree.len() as int,
            v,
        )
}

/// One edge more reaches the node it leads to, and nothing else that was
/// not reached before.
pub proof fn lemma_reaches_after_push(prefix: Seq<UnEdge>, edge: UnEdge, root: int, node: int)
    ensures
        reaches(prefix.push(edge), root, (prefix.len() + 1) as int, node) == (reaches(
            prefix,
            root,
            prefix.len() as int,
            node,
        ) || node == edge.to.0),
{
    let edges = prefix.push(edge);
    let last = prefix.len() as int;
    if reaches(edges, root, last + 1, node) && node != root {
        let j = choose|j: int| 0 <= j < last + 1 && (#[trigger] edges[j]).to.0 == node;
        if j < last {
            assert(prefix[j].to.0 == node);
        }
    }
    if reaches(prefix, root, last, node) && node != root {
        let j = choose|j: int| 0 <= j < last && (#[trigger] prefix[j]).to.0 == node;
        assert(edges[j].to.0 == node);
    }
    if node == edge.to.0 {
        assert(edges[last].to.0 == node);
    }
}

/// What the first `k` edges reach does not depend on the edges after them.
pub proof fn lemma_reaches_before_push(
    prefix: Seq<UnEdge>,
    edge: UnEdge,
    root: int,
    k: int,
    node: int,
)
    requires
        0 <= k <= prefix.len(),
    ensures
        reaches(prefix.push(edge), root, k, node) == reaches(prefix, root, k, node),
{
    let edges = prefix.push(edge);
    if reaches(edges, root, k, node) && node != root {
        let j = choose|j: int| 0 <= j < k && (#[trigger] edges[j]).to.0 == node;
        assert(prefix[j].to.0 == node);
    }
    if reaches(prefix, root, k, node) && node != root {
        let j = choose|j: int| 0 <= j < k && (#[trigger] prefix[j]).to.0 == node;
        assert(edges[j].to.0 == node);
    }
}

/// A grown tree with one edge more, from a node it reaches to a node it
/// does not reach, is a grown tree.
pub proof fn lemma_grows_after_push(tree: Seq<UnEdge>, edge: UnEdge, root: int)
    requires
        grows_from(tree, root),
        reaches(tree, root, tree.len() as int, edge.from.0 as int),
        !reaches(tree, root, tree.len() as int, edge.to.0 as int),
    ensures
        grows_from(tree.push(edge), root),
{
    let longer = tree.push(edge);
    assert forall|i: int| 0 <= i < longer.len() implies reaches(
        longer,
        root,
        i,
        (#[trigger] longer[i]).from.0 as int,
    ) && !reaches(longer, root, i, longer[i].to.0 as int) by {
        lemma_reaches_before_push(tree, edge, root, i, longer[i].from.0 as int);
        lemma_reaches_before_push(tree, edge, root, i, longer[i].to.0 as int);
        if i < tree.len() {
            assert(longer[i] == tree[i]);
        }
    }
}

/// What a round that succeeds adds to the tree: an edge from a node of the
/// tree to the node that joins.
pub proof fn lemma_round_adds_an_edge(p: TreeProblem, st: PrimState, rounds: int) -> (edge: UnEdge)
    requires
        p.wf(),
        grown(p, st, rounds),
        prim_round(p, st) is Some,
    ensures
        prim_round(p, st)->0.tree == st.tree.push(edge),
        prim_round(p, st)->0.in_tree == st.in_tree.update(edge.to.0 as int, true),
        prim_round(p, st)->0.curr == edge.to.0,
        remaining(p, st, edge.to.0 as int),
        p.first <= edge.from.0 < p.dimension,
        st.in_tree[edge.from.0 as int],
{
    let costs = Seq::new(p.dimension as nat, |v: int| relaxed_cost(p, st, v));
    let preds = Seq::new(p.dimension as nat, |v: int| relaxed_pred(p, st, v));
    let next = cheapest_below(costs, st.in_tree, p.first, p.dimension)->0;
    lemma_cheapest_is_reached(costs, st.in_tree, p.first, p.dimension);
    assert(!exists|v: int| forced_twice(p, st, v));
    assert(remaining(p, st, next));
    assert(costs[next] < UNREACHED);
    if improves(p, st, next) {
    } else {
        assert(st.best_cost[next] < UNREACHED);
    }
    UnEdge { from: Node(preds[next] as usize), to: Node(next as usize) }
}

/// A round that succeeds grows the tree by one edge to a new node.
pub proof fn lemma_round_keeps_shaped(p: TreeProblem, st: PrimState, rounds: int)
    requires
        p.wf(),
        grown(p, st, rounds),
        shaped(p, st),
        prim_round(p, st) is Some,
    ensures
        shaped(p, prim_round(p, st)->0),
{
    let after = prim_round(p, st)->0;
    let edge = lemma_round_adds_an_edge(p, st, rounds);
    let t = st.tree.len() as int;
    let pred = edge.from.0 as int;
    let next = edge.to.0 as int;
    assert(st.in_tree[pred] == reaches(st.tree, p.first, t, pred));
    assert(st.in_tree[next] == reaches(st.tree, p.first, t, next));
    lemma_grows_after_push(st.tree, edge, p.first);
    assert forall|v: int| 0 <= v < p.dimension implies #[trigger] after.in_tree[v] == reaches(
        after.tree,
        p.first,
        after.tree.len() as int,
        v,
    ) by {
        lemma_reaches_after_push(st.tree, edge, p.first, v);
        assert(st.in_tree[v] == reaches(st.tree, p.first, t, v));
    }
}

/// After rounds that all succeeded the tree was grown from `first`.
pub proof fn lemma_rounds_are_shaped(p: TreeProblem, rounds: nat)
    requires
        p.wf(),
        prim_rounds(p, rounds) is Some,
    ensures
        shaped(p, prim_rounds(p, rounds)->0),
        grown(p, prim_rounds(p, rounds)->0, rounds as int),
    decreases rounds,
{
    lemma_rounds_are_grown(p, rounds);
    if rounds > 0 {
        lemma_earlier_rounds_succeeded(p, (rounds - 1) as nat, rounds);
        lemma_rounds_are_shaped(p, (rounds - 1) as nat);
        lemma_round_keeps_shaped(p, prim_rounds(p, (rounds - 1) as nat)->0, rounds - 1);
    }
}

/// A spanning tree is grown from `first` and reaches every node to span.
pub proof fn lemma_spanning_tree_is_grown(p: TreeProblem)
    requires
        p.wf(),
        spanning_tree(p) is Some,
    ensures
        grows_from(spanning_tree(p)->0, p.first),
        spanning_tree(p)->0.len() == p.dimension - p.first - 1,
        forall|v: int|
            p.first <= v < p.dimension ==> reaches(
                spanning_tree(p)->0,
                p.first,
                spanning_tree(p)->0.len() as int,
                v,
            ),
        forall|i: int|
            0 <= i < spanning_tree(p)->0.len() ==> p.first <= (
            #[trigger] spanning_tree(p)->0[i]).from.0 < p.dimension && p.first
                <= spanning_tree(p)->0[i].to.0 < p.dimension,
{
    let rounds = (p.dimension - p.first - 1) as nat;
    lemma_rounds_are_shaped(p, rounds);
    let st = prim_rounds(p, rounds)->0;
    lemma_members_full(st.in_tree, p.first, p.dimension);
    assert forall|v: int| p.first <= v < p.dimension implies reaches(
        st.tree,
        p.first,
        st.tree.len() as int,
        v,
    ) by {
        assert(st.in_tree[v]);
    }
}

/// The cheapest node costs no more than any other node outside the tree,
/// and there is one as soon as a node outside the tree has been reached.
pub proof fn lemma_cheapest_is_least(costs: Seq<int>, in_tree: Seq<bool>, first: int, k: int)
    ensures
        match cheapest_below(costs, in_tree, first, k) {
            Some(v) => forall|w: int|
                first <= w < k && !in_tree[w] ==> costs[v] <= #[trigger] costs[w],
            None => forall|w: int|
                first <= w < k && !in_tree[w] ==> #[trigger] costs[w] >= UNREACHED,
        },
    decreases k - first,
{
    if k > first {
        lemma_cheapest_is_least(costs, in_tree, first, k - 1);
        lemma_cheapest_is_reached(costs, in_tree, first, k - 1);
    }
}

/// Whether the `Fixed` edges are a spanning tree of the nodes to span, given
/// by an order of these nodes that starts with `first`, and for every later
/// node the place of its parent, which comes before it: the `Fixed` edges
/// are the edges between a node and its parent.
pub open spec fn is_fixed_spanning_tree(p: TreeProblem, order: Seq<int>, parent: Seq<int>) -> bool {
    &&& order.len() == p.dimension - p.first
    &&& parent.len() == order.len()
    &&& order[0] == p.first
    &&& forall|i: int| 0 <= i < order.len() ==> p.first <= #[trigger] order[i] < p.dimension
    &&& forall|i: int, j: int| 0 <= i < j < order.len() ==> order[i] != order[j]
    &&& forall|v: int| p.first <= v < p.dimension ==> #[trigger] lists(order, v)
    &&& forall|i: int| 1 <= i < order.len() ==> 0 <= #[trigger] parent[i] < i
    &&& forall|u: int, v: int|
        p.first <= u < p.dimension && p.first <= v < p.dimension && u != v ==> (#[trigger] p.state(
            u,
            v,
        ) == EdgeState::Fixed <==> joins_parent(order, parent, u, v))
}

/// Whether `order` lists the node `v`.
pub open spec fn lists(order: Seq<int>, v: int) -> bool {
    exists|i: int| 0 <= i < order.len() && #[trigger] order[i] == v
}

/// Whether one of `u` and `v` is the parent of the other.
pub open spec fn joins_parent(order: Seq<int>, parent: Seq<int>, u: int, v: int) -> bool {
    exists|i: int|
        1 <= i < order.len() && (#[trigger] order[i] == v && order[parent[i]] == u || order[i] == u
            && order[parent[i]] == v)
}

/// Whether the tree holds the parent of each of its nodes, and every edge
/// of the tree is `Fixed`.
pub open spec fn follows_parents(
    p: TreeProblem,
    st: PrimState,
    order: Seq<int>,
    parent: Seq<int>,
) -> bool {
    &&& forall|i: int|
        1 <= i < order.len() && st.in_tree[#[trigger] order[i]] ==> st.in_tree[order[parent[i]]]
    &&& forall|i: int|
        0 <= i < st.tree.len() ==> p.state(
            (#[trigger] st.tree[i]).from.0 as int,
            st.tree[i].to.0 as int,
        ) == EdgeState::Fixed
    &&& forall|v: int| 0 <= v < p.dimension ==> #[trigger] st.best_cost[v] >= FORCED
}

/// A reduced distance is far from the two costs that stand for no edge and
/// for a forced edge.
pub proof fn lemma_reduced_is_finite(p: TreeProblem, from: int, to: int)
    ensures
        FORCED < p.reduced(from, to) < UNREACHED,
{
    let distance = p.distances[p.cell(from, to)];
    let a = p.penalties[from];
    let b = p.penalties[to];
    assert(i32::MIN <= distance.0 <= i32::MAX);
    assert(i32::MIN <= a.0 <= i32::MAX);
    assert(i32::MIN <= b.0 <= i32::MAX);
}

/// The first place in `order`, from `k` on, of a node outside the tree.
proof fn lemma_first_outside(st: PrimState, order: Seq<int>, k: int) -> (at: int)
    requires
        0 <= k,
        exists|i: int| k <= i < order.len() && !st.in_tree[#[trigger] order[i]],
    ensures
        k <= at < order.len(),
        !st.in_tree[order[at]],
        forall|i: int| k <= i < at ==> st.in_tree[#[trigger] order[i]],
    decreases order.len() - k,
{
    if !st.in_tree[order[k]] {
        k
    } else {
        let i = choose|i: int| k <= i < order.len() && !st.in_tree[#[trigger] order[i]];
        assert(k + 1 <= i);
        lemma_first_outside(st, order, k + 1)
    }
}

/// Where the `Fixed` edges are a spanning tree, a round succeeds as long as
/// a node is left, and adds a `Fixed` edge to the tree.
#[verifier::rlimit(60)]
pub proof fn lemma_round_follows_parents(
    p: TreeProblem,
    st: PrimState,
    rounds: int,
    order: Seq<int>,
    parent: Seq<int>,
)
    requires
        p.wf(),
        is_fixed_spanning_tree(p, order, parent),
        grown(p, st, rounds),
        follows_parents(p, st, order, parent),
        rounds + 1 < p.dimension - p.first,
    ensures
        prim_round(p, st) is Some,
        follows_parents(p, prim_round(p, st)->0, order, parent),
{
    let costs = Seq::new(p.dimension as nat, |v: int| relaxed_cost(p, st, v));
    let preds = Seq::new(p.dimension as nat, |v: int| relaxed_pred(p, st, v));
    // No node is forced twice: one of the two forcing nodes would be a child
    // of the forced node, in the tree before its parent.
    assert forall|v: int| !forced_twice(p, st, v) by {
        if forced_twice(p, st, v) {
            let u = st.best_pred[v];
            assert(p.state(u, v) == EdgeState::Fixed);
            assert(p.state(st.curr, v) == EdgeState::Fixed);
            assert(joins_parent(order, parent, u, v));
            assert(joins_parent(order, parent, st.curr, v));
            let i = choose|i: int|
                1 <= i < order.len() && (#[trigger] order[i] == v && order[parent[i]] == u
                    || order[i] == u && order[parent[i]] == v);
            let j = choose|j: int|
                1 <= j < order.len() && (#[trigger] order[j] == v && order[parent[j]] == st.curr
                    || order[j] == st.curr && order[parent[j]] == v);
            if order[i] == v && order[j] == v {
                if i < j {
                    assert(order[i] != order[j]);
                } else if j < i {
                    assert(order[j] != order[i]);
                }
            } else if order[i] == u {
                assert(st.in_tree[order[i]]);
            } else {
                assert(st.in_tree[order[j]]);
            }
        }
    }
    // A node is left, and the first one left in the order has its parent in
    // the tree.
    lemma_members_full(st.in_tree, p.first, p.dimension);
    if forall|i: int| 0 <= i < order.len() ==> st.in_tree[#[trigger] order[i]] {
        assert forall|v: int| p.first <= v < p.dimension implies #[trigger] st.in_tree[v] by {
            assert(lists(order, v));
            let i = choose|i: int| 0 <= i < order.len() && #[trigger] order[i] == v;
            assert(st.in_tree[order[i]]);
        }
        lemma_all_members(st.in_tree, p.first, p.dimension);
    }
    let at = lemma_first_outside(st, order, 0);
    assert(at >= 1);
    let child = order[at];
    let above = order[parent[at]];
    assert(st.in_tree[above]);
    assert(0 <= parent[at] < at);
    assert(above != child) by {
        assert(order[parent[at]] != order[at]);
    }
    assert(joins_parent(order, parent, above, child));
    assert(p.first <= above < p.dimension);
    assert(p.state(above, child) == EdgeState::Fixed);
    assert(remaining(p, st, child));
    assert(!forced_twice(p, st, child));
    assert(costs[child] == FORCED);
    lemma_cheapest_is_least(costs, st.in_tree, p.first, p.dimension);
    lemma_cheapest_is_reached(costs, st.in_tree, p.first, p.dimension);
    assert(cheapest_below(costs, st.in_tree, p.first, p.dimension) is Some);
    let next = cheapest_below(costs, st.in_tree, p.first, p.dimension)->0;
    assert(costs[next] <= costs[child]);
    assert(remaining(p, st, next));
    assert forall|v: int| 0 <= v < p.dimension implies #[trigger] costs[v] >= FORCED by {
        lemma_reduced_is_finite(p, st.curr, v);
        assert(st.best_cost[v] >= FORCED);
    }
    assert(costs[next] >= FORCED);
    let after = prim_round(p, st)->0;
    lemma_round_keeps_grown(p, st, rounds);
    let pred = preds[next];
    assert(p.state(pred, next) == EdgeState::Fixed && st.in_tree[pred] && p.first <= pred
        < p.dimension) by {
        if improves(p, st, next) {
        } else {
            assert(st.best_cost[next] == FORCED);
        }
    }
    let edge = UnEdge { from: Node(pred as usize), to: Node(next as usize) };
    assert(after.tree == st.tree.push(edge));
    assert forall|i: int| 0 <= i < after.tree.len() implies p.state(
        (#[trigger] after.tree[i]).from.0 as int,
        after.tree[i].to.0 as int,
    ) == EdgeState::Fixed by {
        if i < st.tree.len() {
            assert(after.tree[i] == st.tree[i]);
        }
    }
    assert(pred != next);
    assert(joins_parent(order, parent, pred, next));
    assert forall|i: int|
        1 <= i < order.len() && after.in_tree[#[trigger] order[i]]
        implies after.in_tree[order[parent[i]]] by {
        if order[i] == next {
            let j = choose|j: int|
                1 <= j < order.len() && (#[trigger] order[j] == next && order[parent[j]] == pred
                    || order[j] == pred && order[parent[j]] == next);
            if order[j] == next {
                if i < j {
                    assert(order[i] != order[j]);
                } else if j < i {
                    assert(order[j] != order[i]);
                }
            } else {
                assert(st.in_tree[order[j]]);
                assert(st.in_tree[order[parent[j]]]);
            }
        } else {
            assert(st.in_tree[order[i]]);
        }
    }
}

/// Where every node is in the tree, the tree has as many members as there
/// are nodes.
pub proof fn lemma_all_members(in_tree: Seq<bool>, first: int, k: int)
    requires
        0 <= first <= k <= in_tree.len(),
        forall|v: int| first <= v < k ==> #[trigger] in_tree[v],
    ensures
        members(in_tree, first, k) == k - first,
    decreases k - first,
{
    if k > first {
        lemma_all_members(in_tree, first, k - 1);
    }
}

/// Where the `Fixed` edges are a spanning tree, every round succeeds and
/// the tree follows the parents.
pub proof fn lemma_rounds_follow_parents(
    p: TreeProblem,
    rounds: nat,
    order: Seq<int>,
    parent: Seq<int>,
)
    requires
        p.wf(),
        is_fixed_spanning_tree(p, order, parent),
        rounds < p.dimension - p.first,
    ensures
        prim_rounds(p, rounds) is Some,
        follows_parents(p, prim_rounds(p, rounds)->0, order, parent),
    decreases rounds,
{
    if rounds == 0 {
        let st = prim_start(p);
        assert forall|i: int|
            1 <= i < order.len() && st.in_tree[#[trigger] order[i]]
            implies st.in_tree[order[parent[i]]] by {
            assert(order[0] != order[i]);
        }
    } else {
        lemma_rounds_follow_parents(p, (rounds - 1) as nat, order, parent);
        lemma_rounds_are_grown(p, (rounds - 1) as nat);
        lemma_round_follows_parents(
            p,
            prim_rounds(p, (rounds - 1) as nat)->0,
            rounds - 1,
            order,
            parent,
        );
    }
}

/// Where the `Fixed` edges are a spanning tree of the nodes to span, the
/// kernel returns that tree: every edge it returns is `Fixed`, and it
/// returns every `Fixed` edge.
pub proof fn lemma_fixed_spanning_tree_is_returned(
    p: TreeProblem,
    order: Seq<int>,
    parent: Seq<int>,
)
    requires
        p.wf(),
        is_fixed_spanning_tree(p, order, parent),
    ensures
        spanning_tree(p) is Some,
        forall|i: int|
            0 <= i < spanning_tree(p)->0.len() ==> p.state(
                (#[trigger] spanning_tree(p)->0[i]).from.0 as int,
                spanning_tree(p)->0[i].to.0 as int,
            ) == EdgeState::Fixed,
        forall|u: int, v: int|
            p.first <= u < p.dimension && p.first <= v < p.dimension && u != v
                && #[trigger] p.state(u, v) == EdgeState::Fixed ==> has_edge(
                spanning_tree(p)->0,
                u,
                v,
            ),
{
    let rounds = (p.dimension - p.first - 1) as nat;
    lemma_rounds_follow_parents(p, rounds, order, parent);
    lemma_spanning_tree_holds_fixed_edges(p);
    assert forall|u: int, v: int|
        p.first <= u < p.dimension && p.first <= v < p.dimension && u != v && #[trigger] p.state(
            u,
            v,
        ) == EdgeState::Fixed implies has_edge(spanning_tree(p)->0, u, v) by {
        assert(joins_parent(order, parent, u, v));
        let i = choose|i: int|
            1 <= i < order.len() && (#[trigger] order[i] == v && order[parent[i]] == u || order[i]
                == u && order[parent[i]] == v);
        assert(joins_parent(order, parent, v, u));
        assert(p.state(v, u) == EdgeState::Fixed);
        assert(is_fixed(p, u, v));
    }
}

} // verus!
