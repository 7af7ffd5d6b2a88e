//! Dense square matrices of integers, stored in an `ndarray` array.

use vstd::prelude::*;

verus! {

/// A square matrix. Its contents are known to the verifier only through
/// [`dense_rows`].
#[verifier::external_body]
pub struct DenseMatrix {
    cells: ndarray::Array2<i64>,
}

/// The rows of a matrix, top to bottom, each from left to right.
pub uninterp spec fn dense_rows(matrix: DenseMatrix) -> Seq<Seq<i64>>;

/// The square matrix of order `order` whose entries are all zero.
pub open spec fn zero_rows(order: nat) -> Seq<Seq<i64>> {
    Seq::new(order, |i: int| Seq::new(order, |j: int| 0i64))
}

/// Every row of `rows` is as long as `rows` itself.
pub open spec fn is_square(rows: Seq<Seq<i64>>) -> bool {
    forall|i: int| 0 <= i < rows.len() ==> (#[trigger] rows[i]).len() == rows.len()
}

impl DenseMatrix {
    /// The rows of the matrix.
    pub open spec fn rows(&self) -> Seq<Seq<i64>> {
        dense_rows(*self)
    }

    /// `Array2::zeros` with a square shape: `order` rows of `order` zeros.
    /// The array holds `order * order` entries of eight bytes, which must
    /// fit the address space.
    #[verifier::external_body]
    pub(crate) fn zeros(order: usize) -> (matrix: DenseMatrix)
        requires
            order * order * 8 <= isize::MAX,
        ensures
            dense_rows(matrix) == zero_rows(order as nat),
    {
        DenseMatrix { cells: ndarray::Array2::zeros((order, order)) }
    }

    /// `ArrayBase::nrows`: the number of rows.
    #[verifier::external_body]
    pub(crate) fn nrows(&self) -> (order: usize)
        ensures
            order == dense_rows(*self).len(),
    {
        self.cells.nrows()
    }

    /// `ArrayBase::ncols`: the number of columns, which is the length of
    /// every row.
    #[verifier::external_body]
    pub(crate) fn ncols(&self) -> (width: usize)
        ensures
            forall|i: int|
                0 <= i < dense_rows(*self).len() ==> (#[trigger] dense_rows(*self)[i]).len()
                    == width,
    {
        self.cells.ncols()
    }

    /// Indexing an array by `[row, col]` to read: the entry at that place.
    #[verifier::external_body]
    pub(crate) fn entry(&self, row: usize, col: usize) -> (value: i64)
        requires
            row < dense_rows(*self).len(),
            col < dense_rows(*self)[row as int].len(),
        ensures
            value == dense_rows(*self)[row as int][col as int],
    {
        self.cells[[row, col]]
    }

    /// Indexing an array by `[row, col]` to write: that entry becomes
    /// `value` and every other entry stays.
    #[verifier::external_body]
    pub(crate) fn set_entry(&mut self, row: usize, col: usize, value: i64)
        requires
            row < dense_rows(*old(self)).len(),
            col < dense_rows(*old(self))[row as int].len(),
        ensures
            dense_rows(*final(self)) == dense_rows(*old(self)).update(
                row as int,
                dense_rows(*old(self))[row as int].update(col as int, value),
            ),
    {
        self.cells[[row, col]] = value;
    }

    /// The rows of the matrix as vectors.
    pub fn to_rows(&self) -> (rows: Vec<Vec<i64>>)
        ensures
            rows.len() == self.rows().len(),
            forall|i: int| 0 <= i < rows.len() ==> (#[trigger] rows@[i])@ == self.rows()[i],
    {
        let height = self.nrows();
        let width = self.ncols();
        let mut rows: Vec<Vec<i64>> = Vec::new();
        let mut i: usize = 0;
        while i < height
            invariant
                i <= height,
                height == self.rows().len(),
                forall|k: int| 0 <= k < height ==> (#[trigger] self.rows()[k]).len() == width,
                rows.len() == i,
                forall|k: int| 0 <= k < i ==> (#[trigger] rows@[k])@ == self.rows()[k],
            decreases height - i,
        {
            let mut row: Vec<i64> = Vec::new();
            let mut j: usize = 0;
            while j < width
                invariant
                    i < height,
                    j <= width,
                    height == self.rows().len(),
                    self.rows()[i as int].len() == width,
                    row@ == self.rows()[i as int].take(j as int),
                decreases width - j,
            {
                row.push(self.entry(i, j));
                j += 1;
                assert(row@ =~= self.rows()[i as int].take(j as int));
            }
            assert(row@ =~= self.rows()[i as int]);
            rows.push(row);
            i += 1;
        }
        rows
    }
}

} // verus!
