//! The lower-triangular matrix of per-edge data, for symmetric data.

use crate::matrix::lemma_cell_in_range;
use crate::matrix::EdgeDataMatrix;
use crate::node::Node;
use vstd::prelude::*;

verus! {

/// The number of cells in the first `n` rows of a lower-triangular matrix
/// with its diagonal: `n * (n + 1) / 2`.
pub open spec fn triangle(n: int) -> int {
    n * (n + 1) / 2
}

/// The storage index of the unordered pair `{row, column}`: the larger of
/// the two selects the row.
pub open spec fn lower_triangle_index(row: int, column: int) -> int {
    if row >= column {
        triangle(row) + column
    } else {
        triangle(column) + row
    }
}

/// Each row of the triangle is one cell longer than the one before.
pub proof fn lemma_triangle_step(n: int)
    requires
        0 <= n,
    ensures
        triangle(n + 1) == triangle(n) + n + 1,
        0 <= triangle(n) <= n * (n + 1),
{
    assert((n + 1) * (n + 2) == n * (n + 1) + 2 * (n + 1)) by (nonlinear_arith);
    assert(0 <= n * (n + 1)) by (nonlinear_arith)
        requires
            0 <= n,
    ;
}

/// The triangle grows with its number of rows.
pub proof fn lemma_triangle_monotonic(a: int, b: int)
    requires
        0 <= a <= b,
    ensures
        triangle(a) <= triangle(b),
        a * (a + 1) <= b * (b + 1),
    decreases b - a,
{
    assert(a * (a + 1) <= b * (b + 1)) by (nonlinear_arith)
        requires
            0 <= a <= b,
    ;
    if a < b {
        lemma_triangle_monotonic(a, b - 1);
        lemma_triangle_step(b - 1);
    }
}

/// A cell with `column <= row < n` lies inside the storage of `n` rows.
pub proof fn lemma_lower_triangle_in_range(row: int, column: int, n: int)
    requires
        0 <= column <= row < n,
    ensures
        0 <= triangle(row) <= triangle(row) + column < triangle(row + 1) <= triangle(n),
{
    lemma_triangle_step(row);
    lemma_triangle_monotonic(row + 1, n);
}

/// Two cells of the lower triangle share a storage index only if they are
/// the same cell.
pub proof fn lemma_lower_triangle_injective(r1: int, c1: int, r2: int, c2: int)
    requires
        0 <= c1 <= r1,
        0 <= c2 <= r2,
        triangle(r1) + c1 == triangle(r2) + c2,
    ensures
        r1 == r2,
        c1 == c2,
{
    if r1 < r2 {
        lemma_lower_triangle_in_range(r1, c1, r2);
        lemma_triangle_step(r2);
    } else if r2 < r1 {
        lemma_lower_triangle_in_range(r2, c2, r1);
        lemma_triangle_step(r1);
    }
}

/// The storage index is the same for `(row, column)` and `(column, row)`.
pub proof fn lemma_lower_triangle_index_symmetric(row: int, column: int)
    ensures
        lower_triangle_index(row, column) == lower_triangle_index(column, row),
{
}

/// The index of `(row, column)` in a lower-triangular matrix flattened row
/// by row, for `row >= column`.
pub fn get_lower_triangle_matrix_entry_row_bigger(row: usize, column: usize) -> (res: usize)
    requires
        column <= row,
        row * (row + 1) <= usize::MAX,
    ensures
        res == triangle(row as int) + column,
        res == lower_triangle_index(row as int, column as int),
{
    proof {
        lemma_triangle_step(row as int);
        assert(row <= row * (row + 1) / 2 || row == 0) by (nonlinear_arith)
            requires
                0 <= row,
        ;
    }
    (row * (row + 1)) / 2 + column
}

/// The index of `(row, column)` in a lower-triangular matrix flattened row
/// by row, for `column >= row`: the index of the mirrored cell.
pub fn get_lower_triangle_matrix_entry_column_bigger(row: usize, column: usize) -> (res: usize)
    requires
        row <= column,
        column * (column + 1) <= usize::MAX,
    ensures
        res == triangle(column as int) + row,
        res == lower_triangle_index(row as int, column as int),
{
    get_lower_triangle_matrix_entry_row_bigger(column, row)
}

/// The index of the unordered pair `{row, column}` in a lower-triangular
/// matrix flattened row by row.
pub fn get_lower_triangle_matrix_entry(row: usize, column: usize) -> (res: usize)
    requires
        row * (row + 1) <= usize::MAX,
        column * (column + 1) <= usize::MAX,
    ensures
        res == lower_triangle_index(row as int, column as int),
{
    if row > column {
        get_lower_triangle_matrix_entry_row_bigger(row, column)
    } else {
        get_lower_triangle_matrix_entry_row_bigger(column, row)
    }
}

/// Lower-triangular storage of one value per unordered pair of nodes, the
/// diagonal included.
///
/// The cell of `{from, to}` is `data[r * (r + 1) / 2 + c]` with `r` the
/// larger and `c` the smaller of the two. The fields are public; a value is
/// well formed when `data` holds `dimension * (dimension + 1) / 2` cells.
#[derive(Debug, Clone)]
pub struct EdgeDataMatrixSym<Data> {
    pub data: Vec<Data>,
    pub dimension: usize,
}

/// A read-only view of the first `dimension` nodes of an
/// [`EdgeDataMatrixSym`].
#[derive(Debug, Clone)]
pub struct EDMSymViewRestricted<'a, Data> {
    pub data: &'a [Data],
    pub dimension: usize,
}

impl<Data> EdgeDataMatrixSym<Data> {
    /// The storage has one cell per unordered pair of nodes, and index
    /// arithmetic on it does not overflow.
    pub open spec fn wf(&self) -> bool {
        &&& self.dimension * (self.dimension + 1) <= usize::MAX
        &&& self.data@.len() == triangle(self.dimension as int)
    }

    /// The value stored for the unordered pair `{from, to}`.
    pub open spec fn entry(&self, from: int, to: int) -> Data {
        self.data@[lower_triangle_index(from, to)]
    }

    /// Wraps `data` as a symmetric matrix over `dimension` nodes.
    pub fn new(data: Vec<Data>, dimension: usize) -> (res: EdgeDataMatrixSym<Data>)
        requires
            dimension * (dimension + 1) <= usize::MAX,
            data@.len() == triangle(dimension as int),
        ensures
            res.data == data,
            res.dimension == dimension,
            res.wf(),
    {
        EdgeDataMatrixSym { data, dimension }
    }

    /// The backing storage, row by row of the lower triangle.
    pub fn data(&self) -> (res: &Vec<Data>)
        ensures
            res@ == self.data@,
    {
        &self.data
    }

    /// Arithmetic facts that every access to a well-formed matrix uses.
    proof fn lemma_access(&self, from: int, to: int)
        requires
            self.wf(),
            0 <= from < self.dimension,
            0 <= to < self.dimension,
        ensures
            0 <= lower_triangle_index(from, to) < self.data@.len(),
            from * (from + 1) <= usize::MAX,
            to * (to + 1) <= usize::MAX,
    {
        lemma_triangle_monotonic(from, self.dimension as int);
        lemma_triangle_monotonic(to, self.dimension as int);
        if from >= to {
            lemma_lower_triangle_in_range(from, to, self.dimension as int);
        } else {
            lemma_lower_triangle_in_range(to, from, self.dimension as int);
        }
    }

    /// Writes the cell of the unordered pair `{from, to}`; the cell of every
    /// other pair keeps its value.
    pub fn set_data(&mut self, from: Node, to: Node, data: Data)
        requires
            old(self).wf(),
            from.0 < old(self).dimension,
            to.0 < old(self).dimension,
        ensures
            final(self).wf(),
            final(self).dimension == old(self).dimension,
            final(self).data@ == old(self).data@.update(
                lower_triangle_index(from.0 as int, to.0 as int),
                data,
            ),
            final(self).entry(from.0 as int, to.0 as int) == data,
            final(self).entry(to.0 as int, from.0 as int) == data,
            forall|r: int, c: int|
                0 <= r < old(self).dimension && 0 <= c < old(self).dimension && !(r == from.0 && c
                    == to.0) && !(r == to.0 && c == from.0) ==> #[trigger] final(self).entry(r, c)
                    == old(self).entry(r, c),
    {
        proof {
            self.lemma_access(from.0 as int, to.0 as int);
        }
        let index = get_lower_triangle_matrix_entry(from.0, to.0);
        self.data[index] = data;
        proof {
            let n = self.dimension as int;
            assert forall|r: int, c: int|
                0 <= r < n && 0 <= c < n && !(r == from.0 && c == to.0) && !(r == to.0 && c
                    == from.0) implies #[trigger] self.entry(r, c) == old(self).entry(r, c) by {
                old(self).lemma_access(r, c);
                if lower_triangle_index(r, c) == index {
                    let (r1, c1) = if r >= c {
                        (r, c)
                    } else {
                        (c, r)
                    };
                    let (r2, c2) = if from.0 >= to.0 {
                        (from.0 as int, to.0 as int)
                    } else {
                        (to.0 as int, from.0 as int)
                    };
                    lemma_lower_triangle_injective(r1, c1, r2, c2);
                }
            }
        }
    }

    /// Writes the cell of `(from, to)`, for `from >= to`.
    pub fn set_data_from_bigger(&mut self, from: Node, to: Node, data: Data)
        requires
            old(self).wf(),
            to.0 <= from.0 < old(self).dimension,
        ensures
            final(self).wf(),
            final(self).dimension == old(self).dimension,
            final(self).data@ == old(self).data@.update(triangle(from.0 as int) + to.0, data),
            final(self).entry(from.0 as int, to.0 as int) == data,
    {
        proof {
            self.lemma_access(from.0 as int, to.0 as int);
        }
        let index = get_lower_triangle_matrix_entry_row_bigger(from.0, to.0);
        self.data[index] = data;
    }

    /// Writes the cell of `(from, to)`, for `to >= from`.
    pub fn set_data_to_bigger(&mut self, from: Node, to: Node, data: Data)
        requires
            old(self).wf(),
            from.0 <= to.0 < old(self).dimension,
        ensures
            final(self).wf(),
            final(self).dimension == old(self).dimension,
            final(self).data@ == old(self).data@.update(triangle(to.0 as int) + from.0, data),
            final(self).entry(from.0 as int, to.0 as int) == data,
    {
        self.set_data_from_bigger(to, from, data);
    }

    /// A view of the first `n` nodes: the leading `n * (n + 1) / 2` cells.
    pub fn restrict_to_first_n<'a>(&'a self, n: usize) -> (res: EDMSymViewRestricted<'a, Data>)
        requires
            self.wf(),
            n <= self.dimension,
        ensures
            res.wf(),
            res.dimension == n,
            res.data@ == self.data@.subrange(0, triangle(n as int)),
            forall|r: int, c: int|
                0 <= r < n && 0 <= c < n ==> #[trigger] res.entry(r, c) == self.entry(r, c),
    {
        proof {
            lemma_triangle_monotonic(n as int, self.dimension as int);
            lemma_triangle_step(n as int);
            assert(n + 1 <= n * (n + 1) || n == 0) by (nonlinear_arith)
                requires
                    0 <= n,
            ;
        }
        let all = self.data.as_slice();
        let res = EDMSymViewRestricted { data: &all[0..(n * (n + 1)) / 2], dimension: n };
        proof {
            assert forall|r: int, c: int| 0 <= r < n && 0 <= c < n implies #[trigger] res.entry(
                r,
                c,
            ) == self.entry(r, c) by {
                res.lemma_access(r, c);
            }
        }
        res
    }

    /// Fills the cell of every pair `(row, column)` with `column <= row`
    /// with what `distance_function` returns for it.
    pub fn new_from_distance_function(
        dimension: usize,
        distance_function: impl Fn(Node, Node) -> Data,
    ) -> (res: EdgeDataMatrixSym<Data>)
        requires
            dimension * (dimension + 1) <= usize::MAX,
            forall|row: usize, column: usize|
                column <= row < dimension ==> call_requires(
                    distance_function,
                    (Node(row), Node(column)),
                ),
        ensures
            res.wf(),
            res.dimension == dimension,
            forall|row: int, column: int|
                0 <= column <= row < dimension ==> call_ensures(
                    distance_function,
                    (Node(row as usize), Node(column as usize)),
                    #[trigger] res.entry(row, column),
                ),
    {
        let mut data: Vec<Data> = Vec::new();
        let mut row: usize = 0;
        while row < dimension
            invariant
                row <= dimension,
                data@.len() == triangle(row as int),
                forall|r: usize, c: usize|
                    c <= r < dimension ==> call_requires(distance_function, (Node(r), Node(c))),
                forall|r: int, c: int|
                    0 <= c <= r < row ==> call_ensures(
                        distance_function,
                        (Node(r as usize), Node(c as usize)),
                        #[trigger] data@[triangle(r) + c],
                    ),
            decreases dimension - row,
        {
            let mut column: usize = 0;
            while column <= row
                invariant
                    row < dimension,
                    column <= row + 1,
                    data@.len() == triangle(row as int) + column,
                    forall|r: usize, c: usize|
                        c <= r < dimension ==> call_requires(distance_function, (Node(r), Node(c))),
                    forall|r: int, c: int|
                        0 <= c <= r < row ==> call_ensures(
                            distance_function,
                            (Node(r as usize), Node(c as usize)),
                            #[trigger] data@[triangle(r) + c],
                        ),
                    forall|c: int|
                        0 <= c < column ==> call_ensures(
                            distance_function,
                            (Node(row), Node(c as usize)),
                            #[trigger] data@[triangle(row as int) + c],
                        ),
                decreases row + 1 - column,
            {
                let value = distance_function(Node(row), Node(column));
                let ghost before = data@;
                data.push(value);
                proof {
                    assert forall|r: int, c: int| 0 <= c <= r < row implies call_ensures(
                        distance_function,
                        (Node(r as usize), Node(c as usize)),
                        #[trigger] data@[triangle(r) + c],
                    ) by {
                        lemma_lower_triangle_in_range(r, c, row as int);
                        assert(data@[triangle(r) + c] == before[triangle(r) + c]);
                    }
                    assert forall|c: int| 0 <= c < column + 1 implies call_ensures(
                        distance_function,
                        (Node(row), Node(c as usize)),
                        #[trigger] data@[triangle(row as int) + c],
                    ) by {
                        if c < column {
                            assert(data@[triangle(row as int) + c] == before[triangle(row as int)
                                + c]);
                        }
                    }
                }
                column = column + 1;
            }
            proof {
                lemma_triangle_step(row as int);
            }
            row = row + 1;
        }
        EdgeDataMatrixSym { data, dimension }
    }
}

impl<Data: Copy> EdgeDataMatrixSym<Data> {
    /// Reads the cell of the unordered pair `{from, to}`.
    pub fn get_data(&self, from: Node, to: Node) -> (res: Data)
        requires
            self.wf(),
            from.0 < self.dimension,
            to.0 < self.dimension,
        ensures
            res == self.entry(from.0 as int, to.0 as int),
            res == self.entry(to.0 as int, from.0 as int),
    {
        proof {
            self.lemma_access(from.0 as int, to.0 as int);
        }
        let index = get_lower_triangle_matrix_entry(from.0, to.0);
        self.data[index]
    }

    /// Reads the cell of `(from, to)`, for `from >= to`.
    pub fn get_data_from_bigger(&self, from: Node, to: Node) -> (res: Data)
        requires
            self.wf(),
            to.0 <= from.0 < self.dimension,
        ensures
            res == self.entry(from.0 as int, to.0 as int),
    {
        proof {
            self.lemma_access(from.0 as int, to.0 as int);
        }
        let index = get_lower_triangle_matrix_entry_row_bigger(from.0, to.0);
        self.data[index]
    }

    /// Reads the cell of `(from, to)`, for `to >= from`.
    pub fn get_data_to_bigger(&self, from: Node, to: Node) -> (res: Data)
        requires
            self.wf(),
            from.0 <= to.0 < self.dimension,
        ensures
            res == self.entry(from.0 as int, to.0 as int),
    {
        proof {
            self.lemma_access(from.0 as int, to.0 as int);
        }
        let index = get_lower_triangle_matrix_entry_row_bigger(to.0, from.0);
        self.data[index]
    }

    /// The same data as a full matrix: the cell of `{r, c}` is copied to
    /// both `(r, c)` and `(c, r)`.
    pub fn to_edge_data_matrix(&self) -> (res: EdgeDataMatrix<Data>)
        requires
            self.wf(),
            self.dimension * self.dimension <= usize::MAX,
        ensures
            res.wf(),
            res.dimension == self.dimension,
            forall|r: int, c: int|
                0 <= r < self.dimension && 0 <= c < self.dimension ==> #[trigger] res.entry(r, c)
                    == self.entry(r, c),
    {
        let dimension = self.dimension;
        let ghost n = dimension as int;
        let mut data: Vec<Data> = Vec::with_capacity(dimension * dimension);
        let mut row: usize = 0;
        while row < dimension
            invariant
                row <= dimension,
                n == dimension,
                dimension == self.dimension,
                self.wf(),
                data@.len() == row * n,
                forall|r: int, c: int|
                    0 <= r < row && 0 <= c < n ==> #[trigger] data@[r * n + c] == self.entry(r, c),
            decreases dimension - row,
        {
            let mut column: usize = 0;
            while column < dimension
                invariant
                    row < dimension,
                    column <= dimension,
                    n == dimension,
                    dimension == self.dimension,
                    self.wf(),
                    data@.len() == row * n + column,
                    forall|r: int, c: int|
                        0 <= r < row && 0 <= c < n ==> #[trigger] data@[r * n + c] == self.entry(
                            r,
                            c,
                        ),
                    forall|c: int|
                        0 <= c < column ==> #[trigger] data@[row * n + c] == self.entry(
                            row as int,
                            c,
                        ),
                decreases dimension - column,
            {
                let value = self.get_data(Node(row), Node(column));
                let ghost before = data@;
                data.push(value);
                proof {
                    assert forall|r: int, c: int| 0 <= r < row && 0 <= c < n implies #[trigger]
                        data@[r * n + c] == self.entry(r, c) by {
                        lemma_cell_in_range(r, c, n);
                        assert(r * n + n <= row * n) by (nonlinear_arith)
                            requires
                                r < row,
                                0 <= n,
                        ;
                        assert(data@[r * n + c] == before[r * n + c]);
                    }
                    assert forall|c: int| 0 <= c < column + 1 implies #[trigger] data@[row * n
                        + c] == self.entry(row as int, c) by {
                        if c < column {
                            assert(data@[row * n + c] == before[row * n + c]);
                        }
                    }
                }
                column = column + 1;
            }
            proof {
                assert((row + 1) * n == row * n + n) by (nonlinear_arith);
            }
            row = row + 1;
        }
        EdgeDataMatrix { data, dimension }
    }

    /// A symmetric matrix over `dimension` nodes with `value` in every cell.
    pub fn new_from_dimension_with_value(dimension: usize, value: Data) -> (res:
        EdgeDataMatrixSym<Data>)
        requires
            dimension * (dimension + 1) <= usize::MAX,
        ensures
            res.wf(),
            res.dimension == dimension,
            forall|i: int| 0 <= i < res.data@.len() ==> res.data@[i] == value,
    {
        proof {
            lemma_triangle_step(dimension as int);
            assert(dimension + 1 <= dimension * (dimension + 1) || dimension == 0)
                by (nonlinear_arith)
                requires
                    0 <= dimension,
            ;
        }
        let size = (dimension * (dimension + 1)) / 2;
        let mut data: Vec<Data> = Vec::with_capacity(size);
        let mut i: usize = 0;
        while i < size
            invariant
                i <= size,
                data@.len() == i,
                forall|k: int| 0 <= k < i ==> data@[k] == value,
            decreases size - i,
        {
            data.push(value);
            i = i + 1;
        }
        EdgeDataMatrixSym { data, dimension }
    }
}

impl<'a, Data> EDMSymViewRestricted<'a, Data> {
    /// The view has one cell per unordered pair of its nodes.
    pub open spec fn wf(&self) -> bool {
        &&& self.dimension * (self.dimension + 1) <= usize::MAX
        &&& self.data@.len() == triangle(self.dimension as int)
    }

    /// The value stored for the unordered pair `{from, to}`.
    pub open spec fn entry(&self, from: int, to: int) -> Data {
        self.data@[lower_triangle_index(from, to)]
    }

    /// Arithmetic facts that every access to a well-formed view uses.
    proof fn lemma_access(&self, from: int, to: int)
        requires
            self.wf(),
            0 <= from < self.dimension,
            0 <= to < self.dimension,
        ensures
            0 <= lower_triangle_index(from, to) < self.data@.len(),
            from * (from + 1) <= usize::MAX,
            to * (to + 1) <= usize::MAX,
    {
        lemma_triangle_monotonic(from, self.dimension as int);
        lemma_triangle_monotonic(to, self.dimension as int);
        if from >= to {
            lemma_lower_triangle_in_range(from, to, self.dimension as int);
        } else {
            lemma_lower_triangle_in_range(to, from, self.dimension as int);
        }
    }
}

impl<'a, Data: Copy> EDMSymViewRestricted<'a, Data> {
    /// Reads the cell of the unordered pair `{from, to}`.
    pub fn get_data(&self, from: Node, to: Node) -> (res: Data)
        requires
            self.wf(),
            from.0 < self.dimension,
            to.0 < self.dimension,
        ensures
            res == self.entry(from.0 as int, to.0 as int),
            res == self.entry(to.0 as int, from.0 as int),
    {
        proof {
            self.lemma_access(from.0 as int, to.0 as int);
        }
        let index = get_lower_triangle_matrix_entry(from.0, to.0);
        self.data[index]
    }

    /// Reads the cell of `(from, to)`, for `from >= to`.
    pub fn get_data_from_bigger(&self, from: Node, to: Node) -> (res: Data)
        requires
            self.wf(),
            to.0 <= from.0 < self.dimension,
        ensures
            res == self.entry(from.0 as int, to.0 as int),
    {
        proof {
            self.lemma_access(from.0 as int, to.0 as int);
        }
        let index = get_lower_triangle_matrix_entry_row_bigger(from.0, to.0);
        self.data[index]
    }

    /// Reads the cell of `(from, to)`, for `to >= from`.
    pub fn get_data_to_bigger(&self, from: Node, to: Node) -> (res: Data)
        requires
            self.wf(),
            from.0 <= to.0 < self.dimension,
        ensures
            res == self.entry(from.0 as int, to.0 as int),
    {
        self.get_data_from_bigger(to, from)
    }
}

/// Reading a symmetric matrix does not depend on the order of the two nodes.
pub proof fn lemma_symmetric_read<Data>(matrix: EdgeDataMatrixSym<Data>, r: int, c: int)
    ensures
        matrix.entry(r, c) == matrix.entry(c, r),
{
}

} // verus!
