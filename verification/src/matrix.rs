//! The full, row-major matrix of per-edge data.

use crate::node::Node;
use vstd::prelude::*;

verus! {

/// A cell `(from, to)` of an `n` by `n` row-major matrix lies inside the
/// backing storage, and inside the span of its row.
pub proof fn lemma_cell_in_range(from: int, to: int, n: int)
    requires
        0 <= from < n,
        0 <= to < n,
    ensures
        0 <= from * n <= from * n + to < from * n + n <= n * n,
        (from + 1) * n == from * n + n,
{
    assert(from * n + n <= n * n) by (nonlinear_arith)
        requires
            0 <= from < n,
    ;
    assert(0 <= from * n) by (nonlinear_arith)
        requires
            0 <= from < n,
    ;
    assert((from + 1) * n == from * n + n) by (nonlinear_arith);
}

/// Two cells of a row-major matrix share a storage index only if they are
/// the same cell.
pub proof fn lemma_cell_index_injective(r1: int, c1: int, r2: int, c2: int, n: int)
    requires
        0 <= c1 < n,
        0 <= c2 < n,
        0 <= r1,
        0 <= r2,
        r1 * n + c1 == r2 * n + c2,
    ensures
        r1 == r2,
        c1 == c2,
{
    assert(r1 == r2) by (nonlinear_arith)
        requires
            0 <= c1 < n,
            0 <= c2 < n,
            r1 * n + c1 == r2 * n + c2,
    ;
}

/// Row-major dense storage of one value per ordered pair of nodes.
///
/// The cell of `(from, to)` is `data[from * dimension + to]`. The fields are
/// public; a value is well formed when `data` holds `dimension * dimension`
/// cells, which every method assumes and keeps.
#[derive(Debug, Clone)]
pub struct EdgeDataMatrix<Data> {
    pub data: Vec<Data>,
    pub dimension: usize,
}

/// A read-only view of an [`EdgeDataMatrix`] without its first row: row `k`
/// of the view is the row of node `k + 1`.
#[derive(Debug)]
pub struct EDMViewZeroRemoved<'a, Data> {
    pub data: &'a [Data],
    pub dimension: usize,
}

impl<Data> EdgeDataMatrix<Data> {
    /// The storage has one cell per ordered pair of nodes.
    pub open spec fn wf(&self) -> bool {
        self.data@.len() == self.dimension * self.dimension
    }

    /// The value stored for the ordered pair `(from, to)`.
    pub open spec fn entry(&self, from: int, to: int) -> Data {
        self.data@[from * self.dimension + to]
    }

    /// The row of node `from`: its `dimension` cells, in column order.
    pub open spec fn spec_row(&self, from: int) -> Seq<Data> {
        self.data@.subrange(from * self.dimension, from * self.dimension + self.dimension)
    }

    /// Wraps `data` as a matrix over `dimension` nodes.
    pub fn new(data: Vec<Data>, dimension: usize) -> (res: EdgeDataMatrix<Data>)
        requires
            data@.len() == dimension * dimension,
        ensures
            res.data == data,
            res.dimension == dimension,
            res.wf(),
    {
        EdgeDataMatrix { data, dimension }
    }

    /// The number of nodes, rows and columns.
    pub fn dimension(&self) -> (res: usize)
        ensures
            res == self.dimension,
    {
        self.dimension
    }

    /// The backing storage in row-major order.
    pub fn data(&self) -> (res: &[Data])
        ensures
            res@ == self.data@,
    {
        self.data.as_slice()
    }

    /// The storage index of the cell `(from, to)`.
    pub fn get_index(&self, from: Node, to: Node) -> (res: usize)
        requires
            self.wf(),
            from.0 < self.dimension,
            to.0 < self.dimension,
        ensures
            res == from.0 * self.dimension + to.0,
            res < self.data@.len(),
    {
        proof {
            lemma_cell_in_range(from.0 as int, to.0 as int, self.dimension as int);
            assert(self.data.len() == self.data@.len());
        }
        from.0 * self.dimension + to.0
    }

    /// Writes the one cell `(from, to)`.
    pub fn set_data(&mut self, from: Node, to: Node, data: Data)
        requires
            old(self).wf(),
            from.0 < old(self).dimension,
            to.0 < old(self).dimension,
        ensures
            final(self).wf(),
            final(self).dimension == old(self).dimension,
            final(self).data@ == old(self).data@.update(
                from.0 * old(self).dimension + to.0,
                data,
            ),
            final(self).entry(from.0 as int, to.0 as int) == data,
    {
        let index = self.get_index(from, to);
        self.data[index] = data;
    }

    /// Splits the matrix into the row of node 0 and a view of the rows of
    /// all other nodes. The two together are the whole storage.
    pub fn split_first_row<'a>(&'a self) -> (res: (&'a [Data], EDMViewZeroRemoved<'a, Data>))
        requires
            self.wf(),
            self.dimension >= 1,
        ensures
            res.0@ + res.1.data@ == self.data@,
            res.0@ == self.spec_row(0),
            res.0@.len() == self.dimension,
            res.1.dimension == self.dimension,
            res.1.wf(),
            forall|from: int|
                1 <= from < self.dimension ==> #[trigger] res.1.spec_row(from) == self.spec_row(
                    from,
                ),
    {
        proof {
            lemma_cell_in_range(0, 0, self.dimension as int);
            assert((self.dimension - 1) * self.dimension == self.dimension * self.dimension
                - self.dimension) by (nonlinear_arith);
        }
        let all = self.data.as_slice();
        let zero_row = &all[0..self.dimension];
        let rest = &all[self.dimension..all.len()];
        let zero_removed = EDMViewZeroRemoved { data: rest, dimension: self.dimension };
        proof {
            assert(zero_row@ + rest@ =~= self.data@);
            assert forall|from: int| 1 <= from < self.dimension implies #[trigger]
                zero_removed.spec_row(from) == self.spec_row(from) by {
                lemma_cell_in_range(from, 0, self.dimension as int);
                lemma_cell_in_range(from - 1, 0, self.dimension as int);
                assert((from - 1) * self.dimension + self.dimension == from * self.dimension)
                    by (nonlinear_arith);
                assert(zero_removed.spec_row(from) =~= self.spec_row(from));
            }
        }
        (zero_row, zero_removed)
    }
}

impl<Data: Copy> EdgeDataMatrix<Data> {
    /// A matrix over `dimension` nodes with `value` in every cell.
    pub fn new_from_dimension_with_value(dimension: usize, value: Data) -> (res: EdgeDataMatrix<
        Data,
    >)
        requires
            dimension * dimension <= usize::MAX,
        ensures
            res.wf(),
            res.dimension == dimension,
            forall|i: int| 0 <= i < res.data@.len() ==> res.data@[i] == value,
    {
        let size = dimension * dimension;
        let mut data: Vec<Data> = Vec::with_capacity(size);
        let mut i: usize = 0;
        while i < size
            invariant
                i <= size,
                data@.len() == i,
                forall|k: int| 0 <= k < i ==> data@[k] == value,
            decreases size - i,
        {
            data.push(value);
            i = i + 1;
        }
        EdgeDataMatrix { data, dimension }
    }

    /// Reads the cell `(from, to)`.
    pub fn get_data(&self, from: Node, to: Node) -> (res: Data)
        requires
            self.wf(),
            from.0 < self.dimension,
            to.0 < self.dimension,
        ensures
            res == self.entry(from.0 as int, to.0 as int),
    {
        let index = self.get_index(from, to);
        self.data[index]
    }

    /// Reads the cell `(from, to)`; consecutive `to` are adjacent in memory.
    pub fn get_data_to_seq(&self, from: Node, to: Node) -> (res: Data)
        requires
            self.wf(),
            from.0 < self.dimension,
            to.0 < self.dimension,
        ensures
            res == self.entry(from.0 as int, to.0 as int),
    {
        let index = self.get_index(from, to);
        self.data[index]
    }

    /// Reads the mirrored cell `(to, from)`; consecutive `from` are adjacent
    /// in memory. On symmetric data this is the value of `(from, to)`.
    pub fn get_data_from_seq(&self, from: Node, to: Node) -> (res: Data)
        requires
            self.wf(),
            from.0 < self.dimension,
            to.0 < self.dimension,
        ensures
            res == self.entry(to.0 as int, from.0 as int),
    {
        self.get_data_to_seq(to, from)
    }

    /// The row of node `from` as one contiguous slice.
    pub fn get_adjacency_list(&self, from: Node) -> (res: &[Data])
        requires
            self.wf(),
            from.0 < self.dimension,
        ensures
            res@ == self.spec_row(from.0 as int),
            res@.len() == self.dimension,
            forall|to: int| 0 <= to < self.dimension ==> res@[to] == self.entry(from.0 as int, to),
    {
        proof {
            lemma_cell_in_range(from.0 as int, 0, self.dimension as int);
            assert(self.data.len() == self.data@.len());
        }
        let start_index = from.0 * self.dimension;
        let all = self.data.as_slice();
        &all[start_index..start_index + self.dimension]
    }

    /// Writes `data` to both `(from, to)` and `(to, from)`; every other cell
    /// keeps its value.
    pub fn set_data_symmetric(&mut self, from: Node, to: Node, data: Data)
        requires
            old(self).wf(),
            from.0 < old(self).dimension,
            to.0 < old(self).dimension,
        ensures
            final(self).wf(),
            final(self).dimension == old(self).dimension,
            final(self).data@ == old(self).data@.update(
                from.0 * old(self).dimension + to.0,
                data,
            ).update(to.0 * old(self).dimension + from.0, data),
            final(self).entry(from.0 as int, to.0 as int) == data,
            final(self).entry(to.0 as int, from.0 as int) == data,
            forall|r: int, c: int|
                0 <= r < old(self).dimension && 0 <= c < old(self).dimension && !(r == from.0 && c
                    == to.0) && !(r == to.0 && c == from.0) ==> #[trigger] final(self).entry(r, c)
                    == old(self).entry(r, c),
    {
        let ghost n = self.dimension as int;
        proof {
            lemma_cell_in_range(from.0 as int, to.0 as int, n);
            lemma_cell_in_range(to.0 as int, from.0 as int, n);
        }
        self.set_data(from, to, data);
        self.set_data(to, from, data);
        proof {
            assert forall|r: int, c: int|
                0 <= r < n && 0 <= c < n && !(r == from.0 && c == to.0) && !(r == to.0 && c
                    == from.0) implies #[trigger] self.entry(r, c) == old(self).entry(r, c) by {
                lemma_cell_in_range(r, c, n);
                if r * n + c == from.0 * n + to.0 {
                    lemma_cell_index_injective(r, c, from.0 as int, to.0 as int, n);
                }
                if r * n + c == to.0 * n + from.0 {
                    lemma_cell_index_injective(r, c, to.0 as int, from.0 as int, n);
                }
            }
        }
    }

    /// Fills every cell `(row, column)` with what `distance_function`
    /// returns for it, row by row.
    pub fn slow_new_from_distance_function(
        dimension: usize,
        distance_function: impl Fn(Node, Node) -> Data,
    ) -> (res: EdgeDataMatrix<Data>)
        requires
            dimension * dimension <= usize::MAX,
            forall|row: usize, column: usize|
                row < dimension && column < dimension ==> call_requires(
                    distance_function,
                    (Node(row), Node(column)),
                ),
        ensures
            res.wf(),
            res.dimension == dimension,
            forall|row: int, column: int|
                0 <= row < dimension && 0 <= column < dimension ==> call_ensures(
                    distance_function,
                    (Node(row as usize), Node(column as usize)),
                    #[trigger] res.entry(row, column),
                ),
    {
        let ghost n = dimension as int;
        let mut data: Vec<Data> = Vec::with_capacity(dimension * dimension);
        let mut row: usize = 0;
        while row < dimension
            invariant
                row <= dimension,
                n == dimension,
                data@.len() == row * n,
                forall|r: usize, c: usize|
                    r < dimension && c < dimension ==> call_requires(
                        distance_function,
                        (Node(r), Node(c)),
                    ),
                forall|r: int, c: int|
                    0 <= r < row && 0 <= c < n ==> call_ensures(
                        distance_function,
                        (Node(r as usize), Node(c as usize)),
                        #[trigger] data@[r * n + c],
                    ),
            decreases dimension - row,
        {
            let mut column: usize = 0;
            while column < dimension
                invariant
                    row < dimension,
                    column <= dimension,
                    n == dimension,
                    data@.len() == row * n + column,
                    forall|r: usize, c: usize|
                        r < dimension && c < dimension ==> call_requires(
                            distance_function,
                            (Node(r), Node(c)),
                        ),
                    forall|r: int, c: int|
                        0 <= r < row && 0 <= c < n ==> call_ensures(
                            distance_function,
                            (Node(r as usize), Node(c as usize)),
                            #[trigger] data@[r * n + c],
                        ),
                    forall|c: int|
                        0 <= c < column ==> call_ensures(
                            distance_function,
                            (Node(row), Node(c as usize)),
                            #[trigger] data@[row * n + c],
                        ),
                decreases dimension - column,
            {
                let value = distance_function(Node(row), Node(column));
                let ghost before = data@;
                data.push(value);
                proof {
                    assert forall|r: int, c: int| 0 <= r < row && 0 <= c < n implies call_ensures(
                        distance_function,
                        (Node(r as usize), Node(c as usize)),
                        #[trigger] data@[r * n + c],
                    ) by {
                        lemma_cell_in_range(r, c, n);
                        assert(r * n + n <= row * n) by (nonlinear_arith)
                            requires
                                r < row,
                                0 <= n,
                        ;
                        assert(data@[r * n + c] == before[r * n + c]);
                    }
                    assert forall|c: int| 0 <= c < column + 1 implies call_ensures(
                        distance_function,
                        (Node(row), Node(c as usize)),
                        #[trigger] data@[row * n + c],
                    ) by {
                        if c < column {
                            assert(data@[row * n + c] == before[row * n + c]);
                        }
                    }
                }
                column = column + 1;
            }
            proof {
                assert((row + 1) * n == row * n + n) by (nonlinear_arith);
                assert forall|r: int, c: int| 0 <= r < row + 1 && 0 <= c < n implies call_ensures(
                    distance_function,
                    (Node(r as usize), Node(c as usize)),
                    #[trigger] data@[r * n + c],
                ) by {
                    if r == row {
                    }
                }
            }
            row = row + 1;
        }
        EdgeDataMatrix { data, dimension }
    }
}

impl<'a, Data> EDMViewZeroRemoved<'a, Data> {
    /// The view holds the rows of all nodes but node 0.
    pub open spec fn wf(&self) -> bool {
        &&& self.dimension >= 1
        &&& self.data@.len() == (self.dimension - 1) * self.dimension
    }

    /// The row of node `from`, for `from >= 1`.
    pub open spec fn spec_row(&self, from: int) -> Seq<Data> {
        self.data@.subrange(
            (from - 1) * self.dimension,
            (from - 1) * self.dimension + self.dimension,
        )
    }

    /// The value stored for the ordered pair `(from, to)`, for `from >= 1`.
    pub open spec fn entry(&self, from: int, to: int) -> Data {
        self.data@[(from - 1) * self.dimension + to]
    }
}

impl<'a, Data: Copy> EDMViewZeroRemoved<'a, Data> {
    /// The number of rows of the view: one less than the number of nodes.
    pub fn dimension_adjusted(&self) -> (res: usize)
        requires
            self.dimension >= 1,
        ensures
            res == self.dimension - 1,
    {
        self.dimension - 1
    }

    /// The number of nodes of the matrix behind the view.
    pub fn dimension_total(&self) -> (res: usize)
        ensures
            res == self.dimension,
    {
        self.dimension
    }

    /// The row of node `from` as one contiguous slice. Node 0 has no row in
    /// this view.
    pub fn get_adjacency_list(&self, from: Node) -> (res: &'a [Data])
        requires
            self.wf(),
            1 <= from.0 < self.dimension,
        ensures
            res@ == self.spec_row(from.0 as int),
            res@.len() == self.dimension,
            forall|to: int| 0 <= to < self.dimension ==> res@[to] == self.entry(from.0 as int, to),
    {
        proof {
            lemma_cell_in_range(from.0 - 1, 0, self.dimension as int);
            assert((from.0 - 1) * self.dimension + self.dimension <= (self.dimension - 1)
                * self.dimension) by (nonlinear_arith)
                requires
                    1 <= from.0 < self.dimension,
            ;
            assert(self.data.len() == self.data@.len());
        }
        let start_index = (from.0 - 1) * self.dimension;
        &self.data[start_index..start_index + self.dimension]
    }
}

} // verus!
