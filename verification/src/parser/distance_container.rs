//! Distance matrices computed from the points of a coordinate section.
//!
//! The distance of two different points is what the distance function
//! returns for them; the distance of a point to itself is zero. The cells of
//! the lower triangle are numbered row by row, and are filled in chunks of
//! consecutive numbers.

use crate::distance::Distance;
use crate::instance::InstanceMetadata;
use crate::matrix::EdgeDataMatrix;
use crate::matrix::lemma_cell_in_range;
use crate::matrix::lemma_cell_index_injective;
use crate::matrix_sym::EdgeDataMatrixSym;
use crate::matrix_sym::lemma_lower_triangle_in_range;
use crate::matrix_sym::lemma_lower_triangle_injective;
use crate::matrix_sym::lemma_triangle_monotonic;
use crate::matrix_sym::lemma_triangle_step;
use crate::matrix_sym::triangle;
use vstd::prelude::*;

verus! {

/// From this number of cells on, a full matrix is filled in more than one
/// chunk.
pub const PARALLELISM_BOUND: usize = 100_000;

/// The row and the column of the cell with number `index` in a lower
/// triangle numbered row by row: the one pair with `column <= row` and
/// `row * (row + 1) / 2 + column == index`.
pub fn find_row_column_from_lower_triangle_index(index: usize) -> (res: (usize, usize))
    ensures
        res.1 <= res.0,
        triangle(res.0 as int) + res.1 == index,
{
    let mut low: usize = 0;
    let mut high: usize = index;
    proof {
        lemma_triangle_step(index as int);
        lemma_triangle_step(0);
        assert(triangle(0) == 0);
        assert(index <= index * (index + 1) / 2 || index == 0) by (nonlinear_arith)
            requires
                0 <= index,
        ;
    }
    while low < high
        invariant
            low <= high <= index,
            triangle(low as int) <= index,
            index < triangle(high + 1),
        decreases high - low,
    {
        let middle: usize = high - (high - low) / 2;
        assert(0 <= middle * (middle + 1) <= 0xFFFF_FFFF_FFFF_FFFF * 0x1_0000_0000_0000_0000)
            by (nonlinear_arith)
            requires
                0 <= middle <= 0xFFFF_FFFF_FFFF_FFFF,
        ;
        let cells: u128 = (middle as u128 * (middle as u128 + 1)) / 2;
        if cells <= index as u128 {
            low = middle;
        } else {
            high = middle - 1;
        }
    }
    proof {
        lemma_triangle_step(low as int);
    }
    assert(0 <= low * (low + 1) <= 0xFFFF_FFFF_FFFF_FFFF * 0x1_0000_0000_0000_0000)
        by (nonlinear_arith)
        requires
            0 <= low <= 0xFFFF_FFFF_FFFF_FFFF,
    ;
    let before: u128 = (low as u128 * (low as u128 + 1)) / 2;
    (low, (index as u128 - before) as usize)
}

/// Whether `distance_function` may be called on every two of `points`.
pub open spec fn accepts_all<PointType, F: Fn(&PointType, &PointType) -> Distance>(
    distance_function: F,
    points: Seq<PointType>,
) -> bool {
    forall|row: int, column: int|
        0 <= row < points.len() && 0 <= column < points.len() ==> call_requires(
            distance_function,
            (&#[trigger] points[row], &#[trigger] points[column]),
        )
}

/// Whether `distance_function` returns one distance only for every two
/// points.
pub open spec fn is_deterministic<PointType, F: Fn(&PointType, &PointType) -> Distance>(
    distance_function: F,
) -> bool {
    forall|points: (&PointType, &PointType), a: Distance, b: Distance|
        call_ensures(distance_function, points, a) && call_ensures(distance_function, points, b)
            ==> a == b
}

/// Whether `value` is a distance of the points with the numbers `row` and
/// `column`.
pub open spec fn is_distance_of<PointType, F: Fn(&PointType, &PointType) -> Distance>(
    distance_function: F,
    points: Seq<PointType>,
    row: int,
    column: int,
    value: Distance,
) -> bool {
    call_ensures(distance_function, (&points[row], &points[column]), value)
}

/// Fills the cells of the lower triangle with the numbers
/// `first_entry_index..first_entry_index + number_of_entries_in_chunk` of a
/// full matrix, the diagonal excepted. All other cells keep their value.
pub fn compute_dists_from_node_coords_chunk<PointType, F: Fn(&PointType, &PointType) -> Distance>(
    distance_data: &mut Vec<Distance>,
    point_data: &Vec<PointType>,
    first_entry_index: usize,
    number_of_entries_in_chunk: usize,
    distance_function: &F,
    dimension: usize,
)
    requires
        old(distance_data)@.len() == dimension * dimension,
        point_data@.len() == dimension,
        dimension * (dimension + 1) <= usize::MAX,
        first_entry_index + number_of_entries_in_chunk <= triangle(dimension as int),
        accepts_all(*distance_function, point_data@),
    ensures
        final(distance_data)@.len() == old(distance_data)@.len(),
        forall|row: int, column: int|
            0 <= row < dimension && 0 <= column < dimension ==> if column < row
                && first_entry_index <= triangle(row) + column < first_entry_index
                + number_of_entries_in_chunk {
                is_distance_of(
                    *distance_function,
                    point_data@,
                    row,
                    column,
                    #[trigger] final(distance_data)@[row * dimension + column],
                )
            } else {
                final(distance_data)@[row * dimension + column] == old(distance_data)@[row
                    * dimension + column]
            },
{
    if number_of_entries_in_chunk == 0 {
        return ;
    }
    let ghost n = dimension as int;
    let ghost start = distance_data@;
    let (start_row, start_column) = find_row_column_from_lower_triangle_index(first_entry_index);
    let mut row = start_row;
    let mut column = start_column;
    let mut done: usize = 0;
    while done < number_of_entries_in_chunk
        invariant
            n == dimension,
            distance_data@.len() == n * n,
            start.len() == n * n,
            point_data@.len() == dimension,
            dimension * (dimension + 1) <= usize::MAX,
            first_entry_index + number_of_entries_in_chunk <= triangle(n),
            accepts_all(*distance_function, point_data@),
            done <= number_of_entries_in_chunk,
            column <= row,
            triangle(row as int) + column == first_entry_index + done,
            forall|r: int, c: int|
                0 <= r < n && 0 <= c < n ==> if c < r && first_entry_index <= triangle(r) + c
                    < first_entry_index + done {
                    is_distance_of(
                        *distance_function,
                        point_data@,
                        r,
                        c,
                        #[trigger] distance_data@[r * n + c],
                    )
                } else {
                    distance_data@[r * n + c] == start[r * n + c]
                },
        decreases number_of_entries_in_chunk - done,
    {
        proof {
            if row >= dimension {
                lemma_triangle_monotonic(n, row as int);
            }
            lemma_cell_in_range(row as int, column as int, n);
            assert(distance_data.len() == distance_data@.len());
        }
        let ghost before = distance_data@;
        if column < row {
            let value = distance_function(&point_data[row], &point_data[column]);
            distance_data[row * dimension + column] = value;
        }
        proof {
            assert forall|r: int, c: int| 0 <= r < n && 0 <= c < n implies if c < r
                && first_entry_index <= triangle(r) + c < first_entry_index + done + 1 {
                is_distance_of(
                    *distance_function,
                    point_data@,
                    r,
                    c,
                    #[trigger] distance_data@[r * n + c],
                )
            } else {
                distance_data@[r * n + c] == start[r * n + c]
            } by {
                lemma_cell_in_range(r, c, n);
                if r * n + c == row * n + column {
                    lemma_cell_index_injective(r, c, row as int, column as int, n);
                } else {
                    assert(distance_data@[r * n + c] == before[r * n + c]);
                    if c <= r && triangle(r) + c == triangle(row as int) + column {
                        lemma_lower_triangle_injective(
                            r,
                            c,
                            row as int,
                            column as int,
                        );
                    }
                }
            }
            lemma_triangle_step(row as int);
        }
        if column == row {
            row = row + 1;
            column = 0;
        } else {
            column = column + 1;
        }
        done = done + 1;
    }
}

/// The full distance matrix of `point_data`, filled in as many chunks as
/// there are workers.
///
/// The matrix does not depend on the number of workers: the cell of two
/// different points holds a distance of the two, in both directions, and
/// the diagonal holds zero.
pub fn compute_dists_from_node_coords<PointType, F: Fn(&PointType, &PointType) -> Distance>(
    point_data: &Vec<PointType>,
    dimension: usize,
    distance_function: F,
    workers: usize,
) -> (res: EdgeDataMatrix<Distance>)
    requires
        point_data@.len() == dimension,
        dimension * (dimension + 1) <= usize::MAX,
        accepts_all(distance_function, point_data@),
    ensures
        res.wf(),
        res.dimension == dimension,
        forall|row: int, column: int|
            0 <= column < row < dimension ==> is_distance_of(
                distance_function,
                point_data@,
                row,
                column,
                #[trigger] res.entry(row, column),
            ) && res.entry(column, row) == res.entry(row, column),
        forall|row: int| 0 <= row < dimension ==> #[trigger] res.entry(row, row) == Distance(0),
{
    let ghost n = dimension as int;
    proof {
        lemma_triangle_step(n);
        assert(n * n <= n * (n + 1)) by (nonlinear_arith)
            requires
                0 <= n,
        ;
        assert(n + 1 <= n * (n + 1) || n == 0) by (nonlinear_arith)
            requires
                0 <= n,
        ;
    }
    let total_size = dimension * dimension;
    let number_of_entries = (dimension * (dimension + 1)) / 2;
    let mut distance_data: Vec<Distance> = Vec::with_capacity(total_size);
    let mut fill: usize = 0;
    while fill < total_size
        invariant
            fill <= total_size,
            distance_data@.len() == fill,
            forall|i: int| 0 <= i < fill ==> distance_data@[i] == Distance(0),
        decreases total_size - fill,
    {
        distance_data.push(Distance(0));
        fill = fill + 1;
    }
    let entries_per_chunk = if total_size < PARALLELISM_BOUND || workers <= 1 {
        number_of_entries
    } else {
        let whole = number_of_entries / workers;
        assert(number_of_entries % workers == 0 && number_of_entries > 0 ==> whole >= 1)
            by (nonlinear_arith)
            requires
                whole == number_of_entries / workers,
                workers > 1,
                0 <= number_of_entries,
        ;
        if number_of_entries % workers == 0 {
            whole
        } else {
            whole + 1
        }
    };
    proof {
        assert forall|r: int, c: int| 0 <= r < n && 0 <= c < n implies #[trigger] distance_data@[r
            * n + c] == Distance(0) by {
            lemma_cell_in_range(r, c, n);
        }
    }
    let mut first_entry_index: usize = 0;
    while first_entry_index < number_of_entries
        invariant
            n == dimension,
            number_of_entries == triangle(n),
            first_entry_index <= number_of_entries,
            first_entry_index < number_of_entries ==> entries_per_chunk >= 1,
            distance_data@.len() == n * n,
            point_data@.len() == dimension,
            dimension * (dimension + 1) <= usize::MAX,
            accepts_all(distance_function, point_data@),
            forall|r: int, c: int|
                0 <= r < n && 0 <= c < n ==> if c < r && triangle(r) + c < first_entry_index {
                    is_distance_of(
                        distance_function,
                        point_data@,
                        r,
                        c,
                        #[trigger] distance_data@[r * n + c],
                    )
                } else {
                    distance_data@[r * n + c] == Distance(0)
                },
        decreases number_of_entries - first_entry_index,
    {
        let left = number_of_entries - first_entry_index;
        let number_of_entries_in_chunk = if entries_per_chunk < left {
            entries_per_chunk
        } else {
            left
        };
        let ghost before = distance_data@;
        compute_dists_from_node_coords_chunk(
            &mut distance_data,
            point_data,
            first_entry_index,
            number_of_entries_in_chunk,
            &distance_function,
            dimension,
        );
        proof {
            assert forall|r: int, c: int| 0 <= r < n && 0 <= c < n implies if c < r && triangle(r)
                + c < first_entry_index + number_of_entries_in_chunk {
                is_distance_of(
                    distance_function,
                    point_data@,
                    r,
                    c,
                    #[trigger] distance_data@[r * n + c],
                )
            } else {
                distance_data@[r * n + c] == Distance(0)
            } by {
                lemma_cell_in_range(r, c, n);
                if c < r {
                    lemma_lower_triangle_in_range(r, c, n);
                }
                assert(before[r * n + c] == before[r * n + c]);
            }
        }
        first_entry_index = first_entry_index + number_of_entries_in_chunk;
    }
    proof {
        assert forall|r: int, c: int| 0 <= c < r < n implies is_distance_of(
            distance_function,
            point_data@,
            r,
            c,
            #[trigger] distance_data@[r * n + c],
        ) by {
            lemma_lower_triangle_in_range(r, c, n);
        }
        assert forall|r: int| 0 <= r < n implies #[trigger] distance_data@[r * n + r] == Distance(
            0,
        ) by {
            lemma_cell_in_range(r, r, n);
        }
    }
    let mut row: usize = 0;
    while row < dimension
        invariant
            n == dimension,
            row <= dimension,
            distance_data@.len() == n * n,
            n * n <= usize::MAX,
            forall|r: int, c: int|
                0 <= c < r < n ==> is_distance_of(
                    distance_function,
                    point_data@,
                    r,
                    c,
                    #[trigger] distance_data@[r * n + c],
                ),
            forall|r: int| 0 <= r < n ==> #[trigger] distance_data@[r * n + r] == Distance(0),
            forall|r: int, c: int|
                0 <= c < r < row ==> #[trigger] distance_data@[c * n + r] == distance_data@[r * n
                    + c],
        decreases dimension - row,
    {
        let mut column: usize = 0;
        while column < row
            invariant
                n == dimension,
                row < dimension,
                column <= row,
                distance_data@.len() == n * n,
                n * n <= usize::MAX,
                forall|r: int, c: int|
                    0 <= c < r < n ==> is_distance_of(
                        distance_function,
                        point_data@,
                        r,
                        c,
                        #[trigger] distance_data@[r * n + c],
                    ),
                forall|r: int| 0 <= r < n ==> #[trigger] distance_data@[r * n + r] == Distance(0),
                forall|r: int, c: int|
                    0 <= c < r < row ==> #[trigger] distance_data@[c * n + r] == distance_data@[r
                        * n + c],
                forall|c: int|
                    0 <= c < column ==> #[trigger] distance_data@[c * n + row] == distance_data@[row
                        * n + c],
            decreases row - column,
        {
            proof {
                lemma_cell_in_range(row as int, column as int, n);
                lemma_cell_in_range(column as int, row as int, n);
            }
            let ghost before = distance_data@;
            let value = distance_data[row * dimension + column];
            distance_data[column * dimension + row] = value;
            proof {
                let written = column * n + row;
                assert forall|r: int, c: int| 0 <= c < r < n implies is_distance_of(
                    distance_function,
                    point_data@,
                    r,
                    c,
                    #[trigger] distance_data@[r * n + c],
                ) by {
                    lemma_cell_in_range(r, c, n);
                    if r * n + c == written {
                        lemma_cell_index_injective(r, c, column as int, row as int, n);
                    }
                    assert(distance_data@[r * n + c] == before[r * n + c]);
                }
                assert forall|r: int| 0 <= r < n implies #[trigger] distance_data@[r * n + r]
                    == Distance(0) by {
                    lemma_cell_in_range(r, r, n);
                    if r * n + r == written {
                        lemma_cell_index_injective(r, r, column as int, row as int, n);
                    }
                    assert(before[r * n + r] == Distance(0));
                }
                assert forall|r: int, c: int| 0 <= c < r < row implies #[trigger] distance_data@[c
                    * n + r] == distance_data@[r * n + c] by {
                    lemma_cell_in_range(r, c, n);
                    lemma_cell_in_range(c, r, n);
                    if c * n + r == written {
                        lemma_cell_index_injective(c, r, column as int, row as int, n);
                    }
                    if r * n + c == written {
                        lemma_cell_index_injective(r, c, column as int, row as int, n);
                    }
                    assert(before[c * n + r] == before[r * n + c]);
                }
                assert forall|c: int| 0 <= c < column + 1 implies #[trigger] distance_data@[c * n
                    + row] == distance_data@[row * n + c] by {
                    lemma_cell_in_range(row as int, c, n);
                    lemma_cell_in_range(c, row as int, n);
                    if row * n + c == written {
                        lemma_cell_index_injective(row as int, c, column as int, row as int, n);
                    }
                    if c < column {
                        if c * n + row == written {
                            lemma_cell_index_injective(c, row as int, column as int, row as int, n);
                        }
                        assert(before[c * n + row] == before[row * n + c]);
                    }
                }
            }
            column = column + 1;
        }
        row = row + 1;
    }
    let res = EdgeDataMatrix { data: distance_data, dimension };
    proof {
        assert forall|r: int, c: int| 0 <= c < r < dimension implies is_distance_of(
            distance_function,
            point_data@,
            r,
            c,
            #[trigger] res.entry(r, c),
        ) && res.entry(c, r) == res.entry(r, c) by {
            assert(res.data@[c * n + r] == res.data@[r * n + c]);
        }
    }
    res
}

/// The lower triangle of the distance matrix of `point_data`, row by row.
pub fn compute_sym_dists_from_node_coords<PointType, F: Fn(&PointType, &PointType) -> Distance>(
    point_data: &Vec<PointType>,
    dimension: usize,
    distance_function: F,
) -> (res: EdgeDataMatrixSym<Distance>)
    requires
        point_data@.len() == dimension,
        dimension * (dimension + 1) <= usize::MAX,
        accepts_all(distance_function, point_data@),
    ensures
        res.wf(),
        res.dimension == dimension,
        forall|row: int, column: int|
            0 <= column < row < dimension ==> is_distance_of(
                distance_function,
                point_data@,
                row,
                column,
                #[trigger] res.entry(row, column),
            ) && res.entry(column, row) == res.entry(row, column),
        forall|row: int| 0 <= row < dimension ==> #[trigger] res.entry(row, row) == Distance(0),
{
    let mut data: Vec<Distance> = Vec::new();
    let mut row: usize = 0;
    while row < dimension
        invariant
            row <= dimension,
            point_data@.len() == dimension,
            accepts_all(distance_function, point_data@),
            data@.len() == triangle(row as int),
            forall|r: int, c: int|
                0 <= c < r < row ==> is_distance_of(
                    distance_function,
                    point_data@,
                    r,
                    c,
                    #[trigger] data@[triangle(r) + c],
                ),
            forall|r: int| 0 <= r < row ==> #[trigger] data@[triangle(r) + r] == Distance(0),
        decreases dimension - row,
    {
        let mut column: usize = 0;
        while column <= row
            invariant
                row < dimension,
                column <= row + 1,
                point_data@.len() == dimension,
                accepts_all(distance_function, point_data@),
                data@.len() == triangle(row as int) + column,
                forall|r: int, c: int|
                    0 <= c < r < row ==> is_distance_of(
                        distance_function,
                        point_data@,
                        r,
                        c,
                        #[trigger] data@[triangle(r) + c],
                    ),
                forall|r: int| 0 <= r < row ==> #[trigger] data@[triangle(r) + r] == Distance(0),
                forall|c: int|
                    0 <= c < column && c < row ==> is_distance_of(
                        distance_function,
                        point_data@,
                        row as int,
                        c,
                        #[trigger] data@[triangle(row as int) + c],
                    ),
                column == row + 1 ==> data@[triangle(row as int) + row] == Distance(0),
            decreases row + 1 - column,
        {
            let value = if column == row {
                Distance(0)
            } else {
                distance_function(&point_data[row], &point_data[column])
            };
            let ghost before = data@;
            data.push(value);
            proof {
                assert forall|r: int, c: int| 0 <= c < r < row implies is_distance_of(
                    distance_function,
                    point_data@,
                    r,
                    c,
                    #[trigger] data@[triangle(r) + c],
                ) by {
                    lemma_lower_triangle_in_range(r, c, row as int);
                    assert(data@[triangle(r) + c] == before[triangle(r) + c]);
                }
                assert forall|r: int| 0 <= r < row implies #[trigger] data@[triangle(r) + r]
                    == Distance(0) by {
                    lemma_lower_triangle_in_range(r, r, row as int);
                    assert(data@[triangle(r) + r] == before[triangle(r) + r]);
                }
                assert forall|c: int| 0 <= c < column + 1 && c < row implies is_distance_of(
                    distance_function,
                    point_data@,
                    row as int,
                    c,
                    #[trigger] data@[triangle(row as int) + c],
                ) by {
                    if c < column {
                        assert(data@[triangle(row as int) + c] == before[triangle(row as int) + c]);
                    }
                }
            }
            column = column + 1;
        }
        proof {
            lemma_triangle_step(row as int);
        }
        row = row + 1;
    }
    EdgeDataMatrixSym { data, dimension }
}

/// A distance matrix that can be computed from the points of a coordinate
/// section.
pub trait ParseFromTSPLib: Sized {
    /// The number of nodes.
    spec fn nodes(&self) -> int;

    /// The distance from `from` to `to`.
    spec fn distance(&self, from: int, to: int) -> Distance;

    /// The distance matrix of the points `node_data`, one per node, under
    /// `distance_function`.
    fn from_node_coord_section<PointType, F: Fn(&PointType, &PointType) -> Distance>(
        node_data: &Vec<PointType>,
        metadata: &InstanceMetadata,
        distance_function: F,
    ) -> (res: Self)
        requires
            node_data@.len() == metadata.dimension,
            metadata.dimension * (metadata.dimension + 1) <= usize::MAX,
            accepts_all(distance_function, node_data@),
        ensures
            res.nodes() == node_data@.len(),
            forall|row: int, column: int|
                0 <= column < row < node_data@.len() ==> is_distance_of(
                    distance_function,
                    node_data@,
                    row,
                    column,
                    #[trigger] res.distance(row, column),
                ) && res.distance(column, row) == res.distance(row, column),
            forall|row: int|
                0 <= row < node_data@.len() ==> #[trigger] res.distance(row, row) == Distance(0),
    ;
}

/// Whether `container` holds the distances of `points` under
/// `distance_function`: for two different points a distance of the two, the
/// same in both directions, and zero from a point to itself.
pub open spec fn holds_distances<
    Container: ParseFromTSPLib,
    PointType,
    F: Fn(&PointType, &PointType) -> Distance,
>(container: Container, points: Seq<PointType>, distance_function: F) -> bool {
    &&& container.nodes() == points.len()
    &&& forall|row: int, column: int|
        0 <= column < row < points.len() ==> is_distance_of(
            distance_function,
            points,
            row,
            column,
            #[trigger] container.distance(row, column),
        ) && container.distance(column, row) == container.distance(row, column)
    &&& forall|row: int|
        0 <= row < points.len() ==> #[trigger] container.distance(row, row) == Distance(0)
}

impl ParseFromTSPLib for EdgeDataMatrix<Distance> {
    open spec fn nodes(&self) -> int {
        self.dimension as int
    }

    open spec fn distance(&self, from: int, to: int) -> Distance {
        self.entry(from, to)
    }

    fn from_node_coord_section<PointType, F: Fn(&PointType, &PointType) -> Distance>(
        node_data: &Vec<PointType>,
        metadata: &InstanceMetadata,
        distance_function: F,
    ) -> (res: EdgeDataMatrix<Distance>)
        ensures
            res.wf(),
    {
        compute_dists_from_node_coords(node_data, metadata.dimension, distance_function, 1)
    }
}

impl ParseFromTSPLib for EdgeDataMatrixSym<Distance> {
    open spec fn nodes(&self) -> int {
        self.dimension as int
    }

    open spec fn distance(&self, from: int, to: int) -> Distance {
        self.entry(from, to)
    }

    fn from_node_coord_section<PointType, F: Fn(&PointType, &PointType) -> Distance>(
        node_data: &Vec<PointType>,
        metadata: &InstanceMetadata,
        distance_function: F,
    ) -> (res: EdgeDataMatrixSym<Distance>)
        ensures
            res.wf(),
    {
        compute_sym_dists_from_node_coords(node_data, metadata.dimension, distance_function)
    }
}

/// Two distance matrices of the same points under the same distance
/// function hold the same distances, whatever their storage, if the
/// distance function returns one distance only for every two points. The
/// distances are the same in both directions, and zero from a node to
/// itself.
pub proof fn lemma_targets_agree<
    First: ParseFromTSPLib,
    Second: ParseFromTSPLib,
    PointType,
    F: Fn(&PointType, &PointType) -> Distance,
>(first: First, second: Second, points: Seq<PointType>, distance_function: F)
    requires
        holds_distances(first, points, distance_function),
        holds_distances(second, points, distance_function),
        is_deterministic(distance_function),
    ensures
        first.nodes() == second.nodes(),
        forall|from: int, to: int|
            0 <= from < points.len() && 0 <= to < points.len() ==> #[trigger] first.distance(
                from,
                to,
            ) == second.distance(from, to),
        forall|from: int, to: int|
            0 <= from < points.len() && 0 <= to < points.len() ==> #[trigger] first.distance(
                from,
                to,
            ) == first.distance(to, from),
        forall|node: int|
            0 <= node < points.len() ==> #[trigger] first.distance(node, node) == Distance(0),
{
    assert forall|from: int, to: int|
        0 <= from < points.len() && 0 <= to < points.len() implies #[trigger] first.distance(
        from,
        to,
    ) == first.distance(to, from) by {
        if to < from {
            assert(is_distance_of(distance_function, points, from, to, first.distance(from, to)));
        } else if from < to {
            assert(is_distance_of(distance_function, points, to, from, first.distance(to, from)));
        }
    }
    assert forall|from: int, to: int|
        0 <= from < points.len() && 0 <= to < points.len() implies #[trigger] first.distance(
        from,
        to,
    ) == second.distance(from, to) by {
        if to < from {
            assert(is_distance_of(distance_function, points, from, to, first.distance(from, to)));
            assert(is_distance_of(distance_function, points, from, to, second.distance(from, to)));
        } else if from < to {
            assert(is_distance_of(distance_function, points, to, from, first.distance(to, from)));
            assert(is_distance_of(distance_function, points, to, from, second.distance(to, from)));
        }
    }
}

/// The full distance matrix does not depend on the number of chunks it was
/// filled in: two well-formed full matrices that hold the distances of the
/// same points under the same deterministic distance function are equal
/// cell by cell.
pub proof fn lemma_chunks_do_not_matter<PointType, F: Fn(&PointType, &PointType) -> Distance>(
    first: EdgeDataMatrix<Distance>,
    second: EdgeDataMatrix<Distance>,
    points: Seq<PointType>,
    distance_function: F,
)
    requires
        first.wf(),
        second.wf(),
        holds_distances(first, points, distance_function),
        holds_distances(second, points, distance_function),
        is_deterministic(distance_function),
    ensures
        first.data@ == second.data@,
{
    lemma_targets_agree(first, second, points, distance_function);
    let n = points.len() as int;
    assert forall|i: int| 0 <= i < first.data@.len() implies first.data@[i] == second.data@[i] by {
        let row = i / n;
        let column = i % n;
        assert(n > 0) by (nonlinear_arith)
            requires
                0 <= i < n * n,
                0 <= n,
        ;
        vstd::arithmetic::div_mod::lemma_fundamental_div_mod(i, n);
        vstd::arithmetic::div_mod::lemma_mod_pos_bound(i, n);
        assert(0 <= row < n && row * n + column == i) by (nonlinear_arith)
            requires
                0 <= i < n * n,
                i == n * row + column,
                0 <= column < n,
        ;
        assert(first.distance(row, column) == second.distance(row, column));
    }
    assert(first.data@ =~= second.data@);
}

} // verus!
