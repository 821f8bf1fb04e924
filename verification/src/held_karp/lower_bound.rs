//! The lower bound of one node of the search tree: minimum 1-trees under
//! Lagrangian relaxation, with a subgradient step on the node penalties.
//!
//! All sums are taken in 128 bits. The step factor `alpha` is a fixed-point
//! number with 32 fractional bits, so the whole computation stays in
//! integers.

use crate::distance::DISTANCE_MAX;
use crate::distance::Distance;
use crate::distance::ScaledDistance;
use crate::edge::UnEdge;
use crate::edge::UnTour;
use crate::edge::degree;
use crate::held_karp::bound_laws::lemma_value_of_a_tour;
use crate::held_karp::bound_laws::scaled_is_exact;
use crate::held_karp::edge_state::EdgeState;
use crate::held_karp::one_tree_laws::admits_no_tour;
use crate::held_karp::one_tree_laws::all_of_degree_two;
use crate::held_karp::one_tree_laws::bounds_admitted_tours;
use crate::held_karp::one_tree_laws::bounds_scaled_tours;
use crate::held_karp::one_tree_laws::is_admitted_one_tree;
use crate::held_karp::one_tree_laws::is_symmetric_matrix;
use crate::held_karp::one_tree_laws::lemma_best_bounds_tours;
use crate::held_karp::one_tree_laws::lemma_cost_bounds_tours;
use crate::held_karp::one_tree_laws::lemma_no_one_tree_no_tour;
use crate::held_karp::one_tree_laws::lemma_no_values_no_squares;
use crate::held_karp::one_tree_laws::lemma_nothing_bounds_tours;
use crate::held_karp::one_tree_laws::lemma_one_tree_is_admitted;
use crate::held_karp::one_tree_laws::lemma_rounded_bound;
use crate::held_karp::one_tree_laws::lemma_value_bounds_tours;
use crate::held_karp::tours::is_tour;
use crate::held_karp::tours::lemma_no_squares_no_values;
use crate::held_karp::tours::lemma_one_tree_of_degree_two_is_a_tour;
use crate::held_karp::trees::OneTreeProblem;
use crate::held_karp::trees::min_one_tree;
use crate::held_karp::trees::one_tree;
use crate::matrix::EdgeDataMatrix;
use crate::matrix::lemma_cell_in_range;
use vstd::prelude::*;

verus! {

/// The step factor at the first iteration: 2.0 with 32 fractional bits.
pub const INITIAL_ALPHA: u64 = 0x2_0000_0000;

/// The number of iterations allowed at the root of the search tree.
pub const INITIAL_MAX_ITERATIONS: usize = 1_000;

/// The number of iterations allowed below the root.
pub const MAX_ITERATIONS: usize = 10;

/// The factor, in percent, by which `alpha` shrinks per iteration at the
/// root.
pub const INITIAL_BETA_PERCENT: u64 = 99;

/// The factor, in percent, by which `alpha` shrinks per iteration below the
/// root.
pub const BETA_PERCENT: u64 = 90;

/// A step of at most this many scaled units ends the iteration.
pub const SMALLEST_USEFUL_STEP: i32 = 3;

/// A matrix over `n` nodes has fewer than 2^32 of them.
pub proof fn lemma_dimension_bounded(n: usize)
    requires
        n * n <= usize::MAX,
    ensures
        n <= 0xFFFF_FFFF,
{
    assert(n <= 0xFFFF_FFFF) by (nonlinear_arith)
        requires
            n * n <= 0xFFFF_FFFF_FFFF_FFFF,
            0 <= n,
    ;
}

/// The reduced distance from `from` to `to`: the scaled distance less the
/// penalties of both nodes.
pub open spec fn reduced_distance(
    dimension: int,
    distances: Seq<ScaledDistance>,
    penalties: Seq<ScaledDistance>,
    from: int,
    to: int,
) -> int {
    distances[from * dimension + to].0 - penalties[from].0 - penalties[to].0
}

/// The sum of the reduced distances of `edges`.
pub open spec fn reduced_cost(
    dimension: int,
    distances: Seq<ScaledDistance>,
    penalties: Seq<ScaledDistance>,
    edges: Seq<UnEdge>,
) -> int
    decreases edges.len(),
{
    if edges.len() == 0 {
        0
    } else {
        reduced_cost(dimension, distances, penalties, edges.drop_last()) + reduced_distance(
            dimension,
            distances,
            penalties,
            edges.last().from.0 as int,
            edges.last().to.0 as int,
        )
    }
}

/// The value of the Lagrangian relaxation at the 1-tree `edges`: twice the
/// sum of the penalties plus the reduced cost of the tree.
pub open spec fn lagrangian_value(
    dimension: int,
    distances: Seq<ScaledDistance>,
    penalties: Seq<ScaledDistance>,
    edges: Seq<UnEdge>,
) -> int {
    2 * ScaledDistance::spec_sum(penalties) + reduced_cost(dimension, distances, penalties, edges)
}

/// The sum of the distances of `edges` in the matrix `distances` over
/// `dimension` nodes.
pub open spec fn raw_cost(dimension: int, distances: Seq<Distance>, edges: Seq<UnEdge>) -> int
    decreases edges.len(),
{
    if edges.len() == 0 {
        0
    } else {
        raw_cost(dimension, distances, edges.drop_last()) + distances[edges.last().from.0
            * dimension + edges.last().to.0].0
    }
}

/// For each of `dimension` nodes, how far its degree in `edges` is from 2:
/// positive for a node of degree below 2, negative above.
pub open spec fn deviations(edges: Seq<UnEdge>, dimension: int) -> Seq<int> {
    Seq::new(dimension as nat, |v: int| 2 - degree(edges, v))
}

/// The sum of the squares of `values`.
pub open spec fn sum_of_squares(values: Seq<int>) -> int
    decreases values.len(),
{
    if values.len() == 0 {
        0
    } else {
        sum_of_squares(values.drop_last()) + values.last() * values.last()
    }
}

/// The subgradient step: `alpha * gap / square_sum`, with `alpha` read as a
/// fixed-point number with 32 fractional bits, rounded down and capped at
/// `i32::MAX`.
pub open spec fn spec_step_size(alpha: int, gap: int, square_sum: int) -> int {
    let exact = ((alpha * gap) / square_sum) / 0x1_0000_0000;
    if exact > i32::MAX {
        i32::MAX as int
    } else {
        exact
    }
}

/// Whether every penalty stays a 32-bit value when it moves by `step` times
/// the deviation of its node.
pub open spec fn move_fits(penalties: Seq<ScaledDistance>, deviation: Seq<int>, step: int) -> bool {
    forall|v: int|
        0 <= v < penalties.len() ==> i32::MIN <= (#[trigger] penalties[v]).0 + step * deviation[v]
            <= i32::MAX
}

/// The penalties after each has moved by `step` times the deviation of its
/// node.
pub open spec fn moved_penalties(
    penalties: Seq<ScaledDistance>,
    deviation: Seq<int>,
    step: int,
) -> Seq<ScaledDistance> {
    Seq::new(
        penalties.len(),
        |v: int| ScaledDistance((penalties[v].0 + step * deviation[v]) as i32),
    )
}

/// The least distance that is at least `scaled / 32`, kept within 32 bits.
pub open spec fn spec_bound_of(scaled: int) -> int {
    let rounded = (scaled + 31) / 32;
    if rounded > i32::MAX {
        i32::MAX as int
    } else if rounded < i32::MIN {
        i32::MIN as int
    } else {
        rounded
    }
}

/// Every distance is non-negative, and so small that the cost of
/// `dimension` edges is at most `DISTANCE_MAX`.
pub open spec fn distances_fit(distances: Seq<Distance>, dimension: int) -> bool {
    forall|i: int|
        0 <= i < distances.len() ==> 0 <= (#[trigger] distances[i]).0 && distances[i].0 * dimension
            <= DISTANCE_MAX
}

/// The sum of the penalties.
pub fn penalty_total(penalties: &Vec<ScaledDistance>) -> (res: i128)
    requires
        penalties@.len() <= 0xFFFF_FFFF,
    ensures
        res == ScaledDistance::spec_sum(penalties@),
        -0x8000_0000 * penalties@.len() <= res <= 0x8000_0000 * penalties@.len(),
{
    let mut total: i128 = 0;
    let mut i: usize = 0;
    while i < penalties.len()
        invariant
            i <= penalties.len(),
            penalties@.len() <= 0xFFFF_FFFF,
            total == ScaledDistance::spec_sum(penalties@.take(i as int)),
            -0x8000_0000 * i <= total <= 0x8000_0000 * i,
        decreases penalties.len() - i,
    {
        proof {
            assert(penalties@.take(i + 1).drop_last() =~= penalties@.take(i as int));
        }
        total = total + penalties[i].0 as i128;
        i = i + 1;
    }
    proof {
        assert(penalties@.take(i as int) =~= penalties@);
    }
    total
}

/// The sum of the reduced distances of the edges of `tree`.
pub fn reduced_cost_of_tree(
    scaled_distances: &EdgeDataMatrix<ScaledDistance>,
    penalties: &Vec<ScaledDistance>,
    tree: &Vec<UnEdge>,
) -> (res: i128)
    requires
        scaled_distances.wf(),
        penalties@.len() == scaled_distances.dimension,
        tree@.len() <= 0xFFFF_FFFF,
        forall|i: int|
            0 <= i < tree@.len() ==> (#[trigger] tree@[i]).from.0 < scaled_distances.dimension
                && tree@[i].to.0 < scaled_distances.dimension,
    ensures
        res == reduced_cost(
            scaled_distances.dimension as int,
            scaled_distances.data@,
            penalties@,
            tree@,
        ),
        -0x2_0000_0000 * tree@.len() <= res <= 0x2_0000_0000 * tree@.len(),
{
    let ghost n = scaled_distances.dimension as int;
    let mut total: i128 = 0;
    let mut i: usize = 0;
    while i < tree.len()
        invariant
            i <= tree.len(),
            tree@.len() <= 0xFFFF_FFFF,
            scaled_distances.wf(),
            penalties@.len() == scaled_distances.dimension,
            n == scaled_distances.dimension,
            forall|k: int|
                0 <= k < tree@.len() ==> (#[trigger] tree@[k]).from.0 < scaled_distances.dimension
                    && tree@[k].to.0 < scaled_distances.dimension,
            total == reduced_cost(n, scaled_distances.data@, penalties@, tree@.take(i as int)),
            -0x2_0000_0000 * i <= total <= 0x2_0000_0000 * i,
        decreases tree.len() - i,
    {
        proof {
            assert(tree@.take(i + 1).drop_last() =~= tree@.take(i as int));
        }
        let edge = tree[i];
        let distance = scaled_distances.get_data(edge.from, edge.to);
        total = total + (distance.0 as i128 - penalties[edge.from.0].0 as i128
            - penalties[edge.to.0].0 as i128);
        i = i + 1;
    }
    proof {
        assert(tree@.take(i as int) =~= tree@);
    }
    total
}

/// The degree of every node can be read off one edge at a time.
pub proof fn lemma_degree_step(edges: Seq<UnEdge>, k: int, node: int)
    requires
        0 <= k < edges.len(),
    ensures
        degree(edges.take(k + 1), node) == degree(edges.take(k), node) + if edges[k].from.0
            == node {
            1nat
        } else {
            0nat
        } + if edges[k].to.0 == node {
            1nat
        } else {
            0nat
        },
        degree(edges.take(0), node) == 0,
{
    assert(edges.take(k + 1).drop_last() =~= edges.take(k));
}

/// For every node, how far its degree in `tree` is from 2.
pub fn degree_deviations(tree: &Vec<UnEdge>, dimension: usize) -> (res: Vec<i64>)
    requires
        tree@.len() <= 0xFFFF_FFFF,
        forall|i: int|
            0 <= i < tree@.len() ==> (#[trigger] tree@[i]).from.0 < dimension && tree@[i].to.0
                < dimension,
    ensures
        res@.len() == dimension,
        forall|v: int| 0 <= v < dimension ==> #[trigger] res@[v] == 2 - degree(tree@, v),
        forall|v: int| 0 <= v < dimension ==> 2 - 2 * tree@.len() <= #[trigger] res@[v] <= 2,
{
    let mut deviation: Vec<i64> = Vec::with_capacity(dimension);
    let mut fill: usize = 0;
    while fill < dimension
        invariant
            fill <= dimension,
            deviation@.len() == fill,
            forall|v: int| 0 <= v < fill ==> deviation@[v] == 2,
        decreases dimension - fill,
    {
        deviation.push(2);
        fill = fill + 1;
    }
    let mut i: usize = 0;
    while i < tree.len()
        invariant
            i <= tree.len(),
            tree@.len() <= 0xFFFF_FFFF,
            deviation@.len() == dimension,
            forall|k: int|
                0 <= k < tree@.len() ==> (#[trigger] tree@[k]).from.0 < dimension && tree@[k].to.0
                    < dimension,
            forall|v: int|
                0 <= v < dimension ==> #[trigger] deviation@[v] == 2 - degree(
                    tree@.take(i as int),
                    v,
                ),
            forall|v: int| 0 <= v < dimension ==> 2 - 2 * i <= #[trigger] deviation@[v] <= 2,
        decreases tree.len() - i,
    {
        let edge = tree[i];
        let ghost before = deviation@;
        let at_from = deviation[edge.from.0];
        deviation[edge.from.0] = at_from - 1;
        let at_to = deviation[edge.to.0];
        deviation[edge.to.0] = at_to - 1;
        proof {
            assert forall|v: int| 0 <= v < dimension implies #[trigger] deviation@[v] == 2
                - degree(tree@.take(i + 1), v) by {
                lemma_degree_step(tree@, i as int, v);
                assert(before[v] == 2 - degree(tree@.take(i as int), v));
            }
        }
        i = i + 1;
    }
    proof {
        assert(tree@.take(i as int) =~= tree@);
    }
    deviation
}

/// The sum of the squares of the deviations.
pub fn square_sum(deviation: &Vec<i64>, edges: usize) -> (res: i128)
    requires
        deviation@.len() <= 0xFFFF_FFFF,
        edges <= 0xFFFF_FFFF,
        forall|v: int| 0 <= v < deviation@.len() ==> 2 - 2 * edges <= #[trigger] deviation@[v] <= 2,
    ensures
        res == sum_of_squares(deviation@.map_values(|d: i64| d as int)),
        0 <= res <= 0x4_0000_0000_0000_0000_0000 * deviation@.len(),
{
    let ghost values = deviation@.map_values(|d: i64| d as int);
    let mut total: i128 = 0;
    let mut i: usize = 0;
    while i < deviation.len()
        invariant
            i <= deviation.len(),
            deviation@.len() <= 0xFFFF_FFFF,
            edges <= 0xFFFF_FFFF,
            values == deviation@.map_values(|d: i64| d as int),
            forall|v: int|
                0 <= v < deviation@.len() ==> 2 - 2 * edges <= #[trigger] deviation@[v] <= 2,
            total == sum_of_squares(values.take(i as int)),
            0 <= total <= 0x4_0000_0000_0000_0000_0000 * i,
        decreases deviation.len() - i,
    {
        proof {
            assert(values.take(i + 1).drop_last() =~= values.take(i as int));
            assert(values.take(i + 1).last() == deviation@[i as int]);
        }
        let d: i128 = deviation[i] as i128;
        assert(0 <= d * d <= 0x4_0000_0000_0000_0000_0000) by (nonlinear_arith)
            requires
                -0x2_0000_0000 <= d <= 2,
        ;
        total = total + d * d;
        i = i + 1;
    }
    proof {
        assert(values.take(i as int) =~= values);
    }
    total
}

/// The subgradient step for the given gap between upper bound and
/// Lagrangian value.
pub fn step_size(alpha: u64, gap: i128, square_sum: i128) -> (res: i32)
    requires
        alpha <= INITIAL_ALPHA,
        0 < gap <= 0x100_0000_0000_0000_0000,
        0 < square_sum,
    ensures
        res == spec_step_size(alpha as int, gap as int, square_sum as int),
        0 <= res,
{
    assert(0 <= alpha * gap <= 0x2_0000_0000 * 0x100_0000_0000_0000_0000) by (nonlinear_arith)
        requires
            0 <= alpha <= 0x2_0000_0000,
            0 < gap <= 0x100_0000_0000_0000_0000,
    ;
    let product: i128 = alpha as i128 * gap;
    let per_unit: i128 = product / square_sum;
    assert(0 <= per_unit) by (nonlinear_arith)
        requires
            per_unit == product / square_sum,
            0 <= product,
            0 < square_sum,
    ;
    let exact: i128 = per_unit / 0x1_0000_0000;
    if exact > i32::MAX as i128 {
        i32::MAX
    } else {
        exact as i32
    }
}

/// Whether every penalty stays a 32-bit value when it moves by `step` times
/// the deviation of its node.
pub fn penalties_can_move(penalties: &Vec<ScaledDistance>, deviation: &Vec<i64>, step: i32) -> (res:
    bool)
    requires
        deviation@.len() == penalties@.len(),
        0 <= step,
        forall|v: int|
            0 <= v < deviation@.len() ==> -0x2_0000_0000 <= #[trigger] deviation@[v] <= 2,
    ensures
        res == move_fits(penalties@, deviation@.map_values(|d: i64| d as int), step as int),
{
    let ghost values = deviation@.map_values(|d: i64| d as int);
    let mut i: usize = 0;
    while i < penalties.len()
        invariant
            i <= penalties.len(),
            deviation@.len() == penalties@.len(),
            0 <= step,
            values == deviation@.map_values(|d: i64| d as int),
            forall|v: int|
                0 <= v < deviation@.len() ==> -0x2_0000_0000 <= #[trigger] deviation@[v] <= 2,
            forall|v: int|
                0 <= v < i ==> i32::MIN <= (#[trigger] penalties@[v]).0 + step * values[v]
                    <= i32::MAX,
        decreases penalties.len() - i,
    {
        let d: i128 = deviation[i] as i128;
        assert(-0x8000_0000 * 0x2_0000_0000 <= step * d <= 0x8000_0000 * 2) by (nonlinear_arith)
            requires
                0 <= step <= 0x7FFF_FFFF,
                -0x2_0000_0000 <= d <= 2,
        ;
        let moved: i128 = penalties[i].0 as i128 + step as i128 * d;
        if moved < i32::MIN as i128 || moved > i32::MAX as i128 {
            proof {
                assert(values[i as int] == d);
                assert(!(i32::MIN <= penalties@[i as int].0 + step * values[i as int] <= i32::MAX));
            }
            return false;
        }
        proof {
            assert(values[i as int] == d);
        }
        i = i + 1;
    }
    true
}

/// Moves every penalty by `step` times the deviation of its node.
pub fn move_penalties(penalties: &mut Vec<ScaledDistance>, deviation: &Vec<i64>, step: i32)
    requires
        deviation@.len() == old(penalties)@.len(),
        0 <= step,
        forall|v: int|
            0 <= v < deviation@.len() ==> -0x2_0000_0000 <= #[trigger] deviation@[v] <= 2,
        move_fits(old(penalties)@, deviation@.map_values(|d: i64| d as int), step as int),
    ensures
        final(penalties)@ == moved_penalties(
            old(penalties)@,
            deviation@.map_values(|d: i64| d as int),
            step as int,
        ),
{
    let ghost values = deviation@.map_values(|d: i64| d as int);
    let ghost start = penalties@;
    let mut i: usize = 0;
    while i < penalties.len()
        invariant
            i <= penalties.len(),
            penalties@.len() == start.len(),
            deviation@.len() == start.len(),
            0 <= step,
            values == deviation@.map_values(|d: i64| d as int),
            move_fits(start, values, step as int),
            forall|v: int|
                0 <= v < deviation@.len() ==> -0x2_0000_0000 <= #[trigger] deviation@[v] <= 2,
            forall|v: int|
                0 <= v < i ==> #[trigger] penalties@[v] == ScaledDistance(
                    (start[v].0 + step * values[v]) as i32,
                ),
            forall|v: int| i <= v < start.len() ==> #[trigger] penalties@[v] == start[v],
        decreases penalties.len() - i,
    {
        let d: i128 = deviation[i] as i128;
        assert(-0x8000_0000 * 0x2_0000_0000 <= step * d <= 0x8000_0000 * 2) by (nonlinear_arith)
            requires
                0 <= step <= 0x7FFF_FFFF,
                -0x2_0000_0000 <= d <= 2,
        ;
        proof {
            assert(values[i as int] == d);
            assert(i32::MIN <= start[i as int].0 + step * values[i as int] <= i32::MAX);
        }
        let moved: i128 = penalties[i].0 as i128 + step as i128 * d;
        penalties[i] = ScaledDistance(moved as i32);
        i = i + 1;
    }
    proof {
        assert(penalties@ =~= moved_penalties(start, values, step as int));
    }
}

/// The sum of the distances of the edges of `tree`.
pub fn cost_of_edges(distances: &EdgeDataMatrix<Distance>, tree: &Vec<UnEdge>) -> (res: Distance)
    requires
        distances.wf(),
        distances_fit(distances.data@, distances.dimension as int),
        tree@.len() <= distances.dimension,
        forall|i: int|
            0 <= i < tree@.len() ==> (#[trigger] tree@[i]).from.0 < distances.dimension
                && tree@[i].to.0 < distances.dimension,
    ensures
        res.0 == raw_cost(distances.dimension as int, distances.data@, tree@),
        0 <= res.0 <= DISTANCE_MAX,
{
    let ghost n = distances.dimension as int;
    let mut total: i128 = 0;
    let mut i: usize = 0;
    while i < tree.len()
        invariant
            i <= tree.len(),
            n == distances.dimension,
            distances.wf(),
            distances_fit(distances.data@, n),
            tree@.len() <= n,
            forall|k: int|
                0 <= k < tree@.len() ==> (#[trigger] tree@[k]).from.0 < distances.dimension
                    && tree@[k].to.0 < distances.dimension,
            total == raw_cost(n, distances.data@, tree@.take(i as int)),
            0 <= total,
            total * n <= DISTANCE_MAX * i,
        decreases tree.len() - i,
    {
        proof {
            assert(tree@.take(i + 1).drop_last() =~= tree@.take(i as int));
            lemma_cell_in_range(tree@[i as int].from.0 as int, tree@[i as int].to.0 as int, n);
        }
        let edge = tree[i];
        let distance = distances.get_data(edge.from, edge.to);
        proof {
            let d = distance.0 as int;
            assert(0 <= d && d * n <= DISTANCE_MAX);
            assert((total + d) * n == total * n + d * n) by (nonlinear_arith);
            assert(d <= DISTANCE_MAX) by (nonlinear_arith)
                requires
                    0 <= d,
                    d * n <= DISTANCE_MAX,
                    1 <= n,
            ;
            assert(total <= DISTANCE_MAX) by (nonlinear_arith)
                requires
                    0 <= total,
                    total * n <= DISTANCE_MAX * i,
                    0 <= i < n,
            ;
        }
        total = total + distance.0 as i128;
        i = i + 1;
    }
    proof {
        assert(tree@.take(i as int) =~= tree@);
        if n >= 1 {
            assert(total <= DISTANCE_MAX) by (nonlinear_arith)
                requires
                    0 <= total,
                    total * n <= DISTANCE_MAX * i,
                    0 <= i <= n,
                    1 <= n,
            ;
        }
    }
    Distance(total as i32)
}

/// What the lower bound of a search node is computed from.
pub struct BoundProblem {
    pub dimension: int,
    pub distances: Seq<Distance>,
    pub scaled_distances: Seq<ScaledDistance>,
    pub states: Seq<EdgeState>,
    /// The cost of the best tour known.
    pub upper_bound: int,
    /// The number of 1-trees that may be built.
    pub max_iterations: int,
    /// The factor, in percent, by which `alpha` shrinks per iteration.
    pub beta_percent: int,
}

impl BoundProblem {
    /// The 1-tree problem under the penalties `penalties`.
    pub open spec fn one_tree_problem(self, penalties: Seq<ScaledDistance>) -> OneTreeProblem {
        OneTreeProblem {
            dimension: self.dimension,
            distances: self.scaled_distances,
            states: self.states,
            penalties,
        }
    }
}

/// How one iteration of the subgradient method ends.
pub enum BoundStep {
    /// The edge states admit no 1-tree.
    Infeasible,
    /// The 1-tree is a tour.
    Tour { edges: Seq<UnEdge> },
    /// The iteration ends with the best Lagrangian value `best`, in scaled
    /// units, and the last 1-tree.
    Stop { best: int, edges: Seq<UnEdge> },
    /// The penalties have moved; there is another iteration.
    Continue { penalties: Seq<ScaledDistance>, alpha: int, best: int },
}

/// One iteration: build the minimum 1-tree, take its Lagrangian value, and
/// either stop or move the penalties against the degree deviations.
///
/// It stops when the value reaches the scaled upper bound, when the
/// iterations are used up, when the step is at most
/// `SMALLEST_USEFUL_STEP`, or when a penalty would leave the 32-bit range.
pub open spec fn bound_step(
    b: BoundProblem,
    penalties: Seq<ScaledDistance>,
    alpha: int,
    best: int,
    iteration: int,
) -> BoundStep {
    match one_tree(b.one_tree_problem(penalties)) {
        None => BoundStep::Infeasible,
        Some(edges) => {
            let value = lagrangian_value(b.dimension, b.scaled_distances, penalties, edges);
            let new_best = if value > best {
                value
            } else {
                best
            };
            let deviation = deviations(edges, b.dimension);
            let squares = sum_of_squares(deviation);
            let step = spec_step_size(alpha, b.upper_bound * 32 - value, squares);
            if value >= b.upper_bound * 32 {
                BoundStep::Stop { best: new_best, edges }
            } else if squares == 0 {
                BoundStep::Tour { edges }
            } else if iteration + 1 >= b.max_iterations {
                BoundStep::Stop { best: new_best, edges }
            } else if step <= SMALLEST_USEFUL_STEP {
                BoundStep::Stop { best: new_best, edges }
            } else if !move_fits(penalties, deviation, step) {
                BoundStep::Stop { best: new_best, edges }
            } else {
                BoundStep::Continue {
                    penalties: moved_penalties(penalties, deviation, step),
                    alpha: alpha * b.beta_percent / 100,
                    best: new_best,
                }
            }
        },
    }
}

/// What the lower bound computation finds.
pub enum BoundOutcome {
    /// The edge states admit no 1-tree, so no tour either.
    Infeasible,
    /// A 1-tree that is a tour, with its cost.
    Tour { edges: Seq<UnEdge>, cost: int },
    /// A lower bound on the cost of every tour that the edge states admit,
    /// and the last 1-tree built.
    LowerBound { bound: int, edges: Seq<UnEdge> },
}

/// What the lower bound computation finds, and the penalties it leaves.
pub struct BoundRun {
    pub outcome: BoundOutcome,
    pub penalties: Seq<ScaledDistance>,
}

/// The iterations from number `iteration` on.
pub open spec fn lower_bound_from(
    b: BoundProblem,
    penalties: Seq<ScaledDistance>,
    alpha: int,
    best: int,
    iteration: int,
) -> BoundRun
    decreases b.max_iterations - iteration,
{
    match bound_step(b, penalties, alpha, best, iteration) {
        BoundStep::Infeasible => BoundRun { outcome: BoundOutcome::Infeasible, penalties },
        BoundStep::Tour { edges } => BoundRun {
            outcome: BoundOutcome::Tour {
                edges,
                cost: raw_cost(b.dimension, b.distances, edges),
            },
            penalties,
        },
        BoundStep::Stop { best, edges } => BoundRun {
            outcome: BoundOutcome::LowerBound { bound: spec_bound_of(best), edges },
            penalties,
        },
        BoundStep::Continue { penalties: moved, alpha: next_alpha, best: next_best } => {
            if iteration + 1 < b.max_iterations {
                lower_bound_from(b, moved, next_alpha, next_best, iteration + 1)
            } else {
                BoundRun { outcome: BoundOutcome::Infeasible, penalties }
            }
        },
    }
}

/// The lower bound computation from the penalties `penalties`.
pub open spec fn lower_bound(b: BoundProblem, penalties: Seq<ScaledDistance>) -> BoundRun {
    lower_bound_from(b, penalties, INITIAL_ALPHA as int, i32::MIN as int, 0)
}

/// What the lower bound computation returns when the edge states admit a
/// 1-tree.
#[derive(Debug)]
pub enum LowerBoundOutput {
    /// A lower bound on the cost of every tour that the edge states admit,
    /// and the last 1-tree built.
    LowerBound(Distance, Vec<UnEdge>),
    /// A 1-tree that is a tour.
    Tour(UnTour),
}

/// Whether the value `res` is the outcome `outcome`.
pub open spec fn is_outcome(res: Option<LowerBoundOutput>, outcome: BoundOutcome) -> bool {
    match (res, outcome) {
        (None, BoundOutcome::Infeasible) => true,
        (Some(LowerBoundOutput::Tour(tour)), BoundOutcome::Tour { edges, cost }) => tour.edges@
            == edges && tour.cost.0 == cost,
        (
            Some(LowerBoundOutput::LowerBound(bound, tree)),
            BoundOutcome::LowerBound { bound: spec_bound, edges },
        ) => bound.0 == spec_bound && tree@ == edges,
        _ => false,
    }
}

/// Every edge joins two different nodes below `dimension`.
pub open spec fn edges_in_range(edges: Seq<UnEdge>, dimension: int) -> bool {
    forall|i: int|
        0 <= i < edges.len() ==> (#[trigger] edges[i]).from.0 < dimension && edges[i].to.0
            < dimension && edges[i].from.0 != edges[i].to.0
}

/// The least distance that is at least `scaled / 32`, kept within 32 bits.
pub fn bound_of(scaled: i128) -> (res: Distance)
    ensures
        res.0 == spec_bound_of(scaled as int),
{
    if scaled > 0x7FFF_FFFF * 32 {
        Distance(i32::MAX)
    } else if scaled < -0x8000_0000 * 32 - 31 {
        Distance(i32::MIN)
    } else {
        let adjusted: i64 = scaled as i64 + 31;
        let shifted: i64 = adjusted >> 5u32;
        assert(shifted == adjusted / 32) by (bit_vector)
            requires
                shifted == adjusted >> 5u32,
        ;
        Distance(shifted as i32)
    }
}

/// The lower bound of a search node by Lagrangian relaxation.
///
/// Builds minimum 1-trees and moves the penalties against the degree
/// deviations of each until the bound reaches `upper_bound`, a 1-tree is a
/// tour, or the iteration stops making progress. The penalties are left as
/// the last 1-tree saw them.
pub fn held_karp_lower_bound(
    distances: &EdgeDataMatrix<Distance>,
    scaled_distances: &EdgeDataMatrix<ScaledDistance>,
    edge_states: &EdgeDataMatrix<EdgeState>,
    node_penalties: &mut Vec<ScaledDistance>,
    upper_bound: Distance,
    max_iterations: usize,
    beta_percent: u64,
) -> (res: Option<LowerBoundOutput>)
    requires
        distances.wf(),
        scaled_distances.wf(),
        edge_states.wf(),
        distances.dimension >= 2,
        scaled_distances.dimension == distances.dimension,
        edge_states.dimension == distances.dimension,
        old(node_penalties)@.len() == distances.dimension,
        distances_fit(distances.data@, distances.dimension as int),
        beta_percent <= 100,
    ensures
        is_outcome(
            res,
            lower_bound(
                BoundProblem {
                    dimension: distances.dimension as int,
                    distances: distances.data@,
                    scaled_distances: scaled_distances.data@,
                    states: edge_states.data@,
                    upper_bound: upper_bound.0 as int,
                    max_iterations: max_iterations as int,
                    beta_percent: beta_percent as int,
                },
                old(node_penalties)@,
            ).outcome,
        ),
        final(node_penalties)@ == lower_bound(
            BoundProblem {
                dimension: distances.dimension as int,
                distances: distances.data@,
                scaled_distances: scaled_distances.data@,
                states: edge_states.data@,
                upper_bound: upper_bound.0 as int,
                max_iterations: max_iterations as int,
                beta_percent: beta_percent as int,
            },
            old(node_penalties)@,
        ).penalties,
        final(node_penalties)@.len() == distances.dimension,
        res matches Some(LowerBoundOutput::Tour(tour)) ==> tour.edges@.len() == distances.dimension
            && is_tour(tour.edges@, distances.dimension as int)
            && edges_in_range(tour.edges@, distances.dimension as int) && 0 <= tour.cost.0
            <= DISTANCE_MAX && tour.cost.0 == raw_cost(
            distances.dimension as int,
            distances.data@,
            tour.edges@,
        ),
        res matches Some(LowerBoundOutput::LowerBound(_, tree)) ==> tree@.len()
            == distances.dimension && edges_in_range(tree@, distances.dimension as int),
        res matches Some(LowerBoundOutput::Tour(tour)) ==> (
        scaled_is_exact(distances.data@, scaled_distances.data@)
            ==> tour.cost.0 < upper_bound.0),
        res is None ==> (distances.dimension >= 3
            && is_symmetric_matrix(
            distances.dimension as int,
            scaled_distances.data@,
        ) && is_symmetric_matrix(
            distances.dimension as int,
            edge_states.data@,
        ) ==> admits_no_tour(
            distances.dimension as int,
            edge_states.data@,
        )),
        res matches Some(LowerBoundOutput::LowerBound(_, tree)) ==>
            is_admitted_one_tree(
            distances.dimension as int,
            edge_states.data@,
            tree@,
        ),
        res matches Some(LowerBoundOutput::LowerBound(bound, tree)) ==> (bound.0 < upper_bound.0
            ==> !all_of_degree_two(
            tree@,
            distances.dimension as int,
        )),
        res matches Some(LowerBoundOutput::Tour(tour)) ==> (distances.dimension >= 3
            && scaled_is_exact(
            distances.data@,
            scaled_distances.data@,
        ) && is_symmetric_matrix(
            distances.dimension as int,
            scaled_distances.data@,
        ) && is_symmetric_matrix(
            distances.dimension as int,
            edge_states.data@,
        ) ==> bounds_admitted_tours(
            distances.dimension as int,
            distances.data@,
            edge_states.data@,
            tour.cost.0 as int,
        )),
        res matches Some(LowerBoundOutput::LowerBound(bound, _)) ==> (distances.dimension >= 3
            && scaled_is_exact(
            distances.data@,
            scaled_distances.data@,
        ) && is_symmetric_matrix(
            distances.dimension as int,
            scaled_distances.data@,
        ) && is_symmetric_matrix(
            distances.dimension as int,
            edge_states.data@,
        ) ==> bounds_admitted_tours(
            distances.dimension as int,
            distances.data@,
            edge_states.data@,
            bound.0 as int,
        )),
{
    let dimension = distances.dimension;
    let ghost n = dimension as int;
    let ghost b = BoundProblem {
        dimension: n,
        distances: distances.data@,
        scaled_distances: scaled_distances.data@,
        states: edge_states.data@,
        upper_bound: upper_bound.0 as int,
        max_iterations: max_iterations as int,
        beta_percent: beta_percent as int,
    };
    let ghost start = node_penalties@;
    let ghost target = lower_bound(b, start);
    proof {
        assert(distances.data.len() == distances.data@.len());
        lemma_dimension_bounded(dimension);
    }
    let ghost sound = dimension >= 3 && scaled_is_exact(
        distances.data@,
        scaled_distances.data@,
    ) && is_symmetric_matrix(n, scaled_distances.data@)
        && is_symmetric_matrix(n, edge_states.data@);
    let scaled_bound: i128 = upper_bound.0 as i128 * 32;
    let mut best: i128 = i32::MIN as i128;
    proof {
        if sound {
            lemma_nothing_bounds_tours(
                n,
                distances.data@,
                scaled_distances.data@,
                edge_states.data@,
                best as int,
            );
        }
    }
    let mut iteration: usize = 0;
    let mut alpha: u64 = INITIAL_ALPHA;
    loop
        invariant
            distances.wf(),
            scaled_distances.wf(),
            edge_states.wf(),
            dimension == distances.dimension,
            n == dimension,
            2 <= dimension <= 0xFFFF_FFFF,
            scaled_distances.dimension == dimension,
            edge_states.dimension == dimension,
            node_penalties@.len() == dimension,
            distances_fit(distances.data@, n),
            beta_percent <= 100,
            b == (BoundProblem {
                dimension: n,
                distances: distances.data@,
                scaled_distances: scaled_distances.data@,
                states: edge_states.data@,
                upper_bound: upper_bound.0 as int,
                max_iterations: max_iterations as int,
                beta_percent: beta_percent as int,
            }),
            scaled_bound == upper_bound.0 * 32,
            alpha <= INITIAL_ALPHA,
            -0x8_0000_0000_0000_0000 <= best <= 0x8_0000_0000_0000_0000,
            iteration == 0 || iteration < max_iterations,
            start == old(node_penalties)@,
            target == lower_bound(b, start),
            sound == (dimension >= 3 && scaled_is_exact(
                distances.data@,
                scaled_distances.data@,
            ) && is_symmetric_matrix(n, scaled_distances.data@)
                && is_symmetric_matrix(n, edge_states.data@)),
            sound ==> bounds_scaled_tours(
                n,
                scaled_distances.data@,
                edge_states.data@,
                best as int,
            ),
            lower_bound_from(b, node_penalties@, alpha as int, best as int, iteration as int)
                == target,
        decreases max_iterations - iteration,
    {
        let tree = match min_one_tree(scaled_distances, edge_states, node_penalties.as_slice()) {
            None => {
                proof {
                    if dimension >= 3 && is_symmetric_matrix(
                        n,
                        scaled_distances.data@,
                    ) && is_symmetric_matrix(
                        n,
                        edge_states.data@,
                    ) {
                        lemma_no_one_tree_no_tour(
                            b.one_tree_problem(node_penalties@),
                        );
                    }
                }
                return None;
            },
            Some(tree) => tree,
        };
        let value: i128 = 2 * penalty_total(node_penalties) + reduced_cost_of_tree(
            scaled_distances,
            node_penalties,
            &tree,
        );
        proof {
            lemma_one_tree_is_admitted(
                b.one_tree_problem(node_penalties@),
            );
            if sound {
                lemma_value_bounds_tours(
                    b.one_tree_problem(node_penalties@),
                );
                lemma_best_bounds_tours(
                    n,
                    scaled_distances.data@,
                    edge_states.data@,
                    value as int,
                    best as int,
                );
            }
        }
        if value > best {
            best = value;
        }
        proof {
            if sound {
                lemma_rounded_bound(
                    n,
                    distances.data@,
                    scaled_distances.data@,
                    edge_states.data@,
                    best as int,
                );
            }
        }
        if value >= scaled_bound {
            return Some(LowerBoundOutput::LowerBound(bound_of(best), tree));
        }
        let deviation = degree_deviations(&tree, dimension);
        let squares = square_sum(&deviation, tree.len());
        proof {
            assert(deviation@.map_values(|d: i64| d as int) =~= deviations(tree@, n));
        }
        proof {
            if all_of_degree_two(tree@, n) {
                let values = deviation@.map_values(|d: i64| d as int);
                assert forall|i: int| 0 <= i < values.len() implies #[trigger] values[i] == 0 by {
                    assert(deviation@[i] == 2 - degree(tree@, i));
                }
                lemma_no_values_no_squares(values);
            }
        }
        if squares == 0 {
            proof {
                let values = deviation@.map_values(|d: i64| d as int);
                lemma_no_squares_no_values(values);
                assert forall|node: int| 0 <= node < n implies degree(tree@, node) == 2 by {
                    assert(values[node] == 0);
                    assert(deviation@[node] == 2 - degree(tree@, node));
                }
                lemma_one_tree_of_degree_two_is_a_tour(
                    b.one_tree_problem(node_penalties@),
                    tree@,
                );
            }
            let cost = cost_of_edges(distances, &tree);
            proof {
                if scaled_is_exact(
                    distances.data@,
                    scaled_distances.data@,
                ) {
                    lemma_value_of_a_tour(
                        n,
                        distances.data@,
                        scaled_distances.data@,
                        node_penalties@,
                        tree@,
                    );
                }
                if sound {
                    lemma_value_bounds_tours(
                        b.one_tree_problem(node_penalties@),
                    );
                    lemma_cost_bounds_tours(
                        n,
                        distances.data@,
                        scaled_distances.data@,
                        edge_states.data@,
                        cost.0 as int,
                    );
                }
            }
            return Some(LowerBoundOutput::Tour(UnTour { edges: tree, cost }));
        }
        if iteration + 1 >= max_iterations {
            return Some(LowerBoundOutput::LowerBound(bound_of(best), tree));
        }
        let step = step_size(alpha, scaled_bound - value, squares);
        if step <= SMALLEST_USEFUL_STEP {
            return Some(LowerBoundOutput::LowerBound(bound_of(best), tree));
        }
        if !penalties_can_move(node_penalties, &deviation, step) {
            return Some(LowerBoundOutput::LowerBound(bound_of(best), tree));
        }
        move_penalties(node_penalties, &deviation, step);
        assert(alpha * beta_percent <= 0x2_0000_0000 * 100 && alpha * beta_percent / 100 <= alpha)
            by (nonlinear_arith)
            requires
                0 <= alpha <= 0x2_0000_0000,
                0 <= beta_percent <= 100,
        ;
        alpha = alpha * beta_percent / 100;
        iteration = iteration + 1;
    }
}

} // verus!
