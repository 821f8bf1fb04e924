//! What the Lagrangian value of a tour is.
//!
//! On a tour every node has degree 2, so the penalties that the reduced
//! distances take off are twice the sum of all penalties, which is what the
//! Lagrangian value adds. What is left is the scaled cost of the tour.

use crate::distance::Distance;
use crate::distance::ScaledDistance;
use crate::edge::UnEdge;
use crate::edge::degree;
use crate::held_karp::lower_bound::lagrangian_value;
use crate::held_karp::lower_bound::raw_cost;
use crate::held_karp::lower_bound::reduced_cost;
use crate::held_karp::tours::lemma_degree_of_push;
use crate::matrix::lemma_cell_in_range;
use vstd::prelude::*;

verus! {

/// Whether every scaled distance is 32 times the distance in the same cell.
pub open spec fn scaled_is_exact(
    distances: Seq<Distance>,
    scaled_distances: Seq<ScaledDistance>,
) -> bool {
    &&& scaled_distances.len() == distances.len()
    &&& forall|i: int|
        0 <= i < distances.len() ==> (#[trigger] scaled_distances[i]).0 == distances[i].0 * 32
}

/// The sum, over the edges, of the penalties of both ends.
pub open spec fn penalty_load(penalties: Seq<ScaledDistance>, edges: Seq<UnEdge>) -> int
    decreases edges.len(),
{
    if edges.len() == 0 {
        0
    } else {
        penalty_load(penalties, edges.drop_last()) + penalties[edges.last().from.0 as int].0
            + penalties[edges.last().to.0 as int].0
    }
}

/// The sum, over the nodes below `k`, of the penalty of the node times its
/// degree in `edges`.
pub open spec fn weighted_degrees(penalties: Seq<ScaledDistance>, edges: Seq<UnEdge>, k: int) -> int
    decreases k,
{
    if k <= 0 {
        0
    } else {
        weighted_degrees(penalties, edges, k - 1) + degree(edges, k - 1) * penalties[k - 1].0
    }
}

/// The reduced cost of edges is their scaled cost less their penalty load.
pub proof fn lemma_reduced_cost_splits(
    dimension: int,
    distances: Seq<Distance>,
    scaled_distances: Seq<ScaledDistance>,
    penalties: Seq<ScaledDistance>,
    edges: Seq<UnEdge>,
)
    requires
        0 <= dimension,
        distances.len() == dimension * dimension,
        scaled_is_exact(distances, scaled_distances),
        forall|i: int|
            0 <= i < edges.len() ==> (#[trigger] edges[i]).from.0 < dimension && edges[i].to.0
                < dimension,
    ensures
        reduced_cost(dimension, scaled_distances, penalties, edges) == 32 * raw_cost(
            dimension,
            distances,
            edges,
        ) - penalty_load(penalties, edges),
    decreases edges.len(),
{
    if edges.len() > 0 {
        let prefix = edges.drop_last();
        assert forall|i: int| 0 <= i < prefix.len() implies (#[trigger] prefix[i]).from.0
            < dimension && prefix[i].to.0 < dimension by {
            assert(prefix[i] == edges[i]);
        }
        lemma_reduced_cost_splits(dimension, distances, scaled_distances, penalties, prefix);
        let last = edges.last();
        assert(last == edges[edges.len() - 1]);
        lemma_cell_in_range(last.from.0 as int, last.to.0 as int, dimension);
    }
}

/// One edge more adds the penalties of those of its ends that are below
/// `k` to the weighted degrees.
pub proof fn lemma_weighted_degrees_of_push(
    penalties: Seq<ScaledDistance>,
    edges: Seq<UnEdge>,
    edge: UnEdge,
    k: int,
)
    ensures
        weighted_degrees(penalties, edges.push(edge), k) == weighted_degrees(penalties, edges, k)
            + if 0 <= edge.from.0 < k {
            penalties[edge.from.0 as int].0 as int
        } else {
            0int
        } + if 0 <= edge.to.0 < k {
            penalties[edge.to.0 as int].0 as int
        } else {
            0int
        },
    decreases k,
{
    if k > 0 {
        lemma_weighted_degrees_of_push(penalties, edges, edge, k - 1);
        lemma_degree_of_push(edges, edge, k - 1);
        let before = degree(edges, k - 1) as int;
        let after = degree(edges.push(edge), k - 1) as int;
        let weight = penalties[k - 1].0 as int;
        assert(after * weight == before * weight + (after - before) * weight)
            by (nonlinear_arith);
        let step = after - before;
        assert(step == 0 || step == 1 || step == 2);
        assert(step * weight == if step == 0 {
            0int
        } else if step == 1 {
            weight
        } else {
            weight + weight
        }) by (nonlinear_arith)
            requires
                step == 0 || step == 1 || step == 2,
        ;
    }
}

/// The penalty load of edges between nodes below `dimension` is the sum of
/// the penalties weighted by the degrees.
pub proof fn lemma_penalty_load_by_degrees(
    penalties: Seq<ScaledDistance>,
    edges: Seq<UnEdge>,
    dimension: int,
)
    requires
        forall|i: int|
            0 <= i < edges.len() ==> (#[trigger] edges[i]).from.0 < dimension && edges[i].to.0
                < dimension,
    ensures
        penalty_load(penalties, edges) == weighted_degrees(penalties, edges, dimension),
    decreases edges.len(),
{
    if edges.len() == 0 {
        lemma_no_edges_no_weight(penalties, edges, dimension);
    } else {
        let prefix = edges.drop_last();
        assert forall|i: int| 0 <= i < prefix.len() implies (#[trigger] prefix[i]).from.0
            < dimension && prefix[i].to.0 < dimension by {
            assert(prefix[i] == edges[i]);
        }
        lemma_penalty_load_by_degrees(penalties, prefix, dimension);
        assert(edges =~= prefix.push(edges.last()));
        assert(edges.last() == edges[edges.len() - 1]);
        lemma_weighted_degrees_of_push(penalties, prefix, edges.last(), dimension);
    }
}

/// Without edges the weighted degrees are zero.
pub proof fn lemma_no_edges_no_weight(penalties: Seq<ScaledDistance>, edges: Seq<UnEdge>, k: int)
    requires
        edges.len() == 0,
    ensures
        weighted_degrees(penalties, edges, k) == 0,
    decreases k,
{
    if k > 0 {
        lemma_no_edges_no_weight(penalties, edges, k - 1);
        assert(degree(edges, k - 1) == 0);
        assert(0 * penalties[k - 1].0 == 0);
    }
}

/// Where every node has degree 2, the weighted degrees are twice the sum of
/// the penalties.
pub proof fn lemma_weighted_degrees_of_a_tour(
    penalties: Seq<ScaledDistance>,
    edges: Seq<UnEdge>,
    k: int,
)
    requires
        0 <= k <= penalties.len(),
        forall|node: int| 0 <= node < k ==> degree(edges, node) == 2,
    ensures
        weighted_degrees(penalties, edges, k) == 2 * ScaledDistance::spec_sum(penalties.take(k)),
    decreases k,
{
    if k > 0 {
        lemma_weighted_degrees_of_a_tour(penalties, edges, k - 1);
        assert(penalties.take(k).drop_last() =~= penalties.take(k - 1));
        assert(penalties.take(k).last() == penalties[k - 1]);
        assert(degree(edges, k - 1) == 2);
    }
}

/// The Lagrangian value of edges in which every node has degree 2 is their
/// scaled cost, whatever the penalties.
pub proof fn lemma_value_of_a_tour(
    dimension: int,
    distances: Seq<Distance>,
    scaled_distances: Seq<ScaledDistance>,
    penalties: Seq<ScaledDistance>,
    edges: Seq<UnEdge>,
)
    requires
        0 <= dimension,
        distances.len() == dimension * dimension,
        penalties.len() == dimension,
        scaled_is_exact(distances, scaled_distances),
        forall|i: int|
            0 <= i < edges.len() ==> (#[trigger] edges[i]).from.0 < dimension && edges[i].to.0
                < dimension,
        forall|node: int| 0 <= node < dimension ==> degree(edges, node) == 2,
    ensures
        lagrangian_value(dimension, scaled_distances, penalties, edges) == 32 * raw_cost(
            dimension,
            distances,
            edges,
        ),
{
    lemma_reduced_cost_splits(dimension, distances, scaled_distances, penalties, edges);
    lemma_penalty_load_by_degrees(penalties, edges, dimension);
    lemma_weighted_degrees_of_a_tour(penalties, edges, dimension);
    assert(penalties.take(dimension) =~= penalties);
}

} // verus!
