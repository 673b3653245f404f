//! A dense matrix of exact rationals that grows by whole rows and columns.

use crate::rational::Rational;
use vstd::prelude::*;

verus! {

/// Why a cell of a matrix could not be reached.
#[derive(Clone, Copy, Debug, PartialEq, Eq)]
pub enum MatrixError {
    /// The row index is not below the number of rows.
    RowOutOfRange,
    /// The column index is not below the number of columns.
    ColumnOutOfRange,
}

/// A row of `len` zeros.
pub open spec fn zero_row(len: nat) -> Seq<real> {
    Seq::new(len, |j: int| 0real)
}

/// The values of a row of rationals.
pub open spec fn row_values(row: Seq<Rational>) -> Seq<real> {
    Seq::new(row.len(), |j: int| row[j]@)
}

/// A dense matrix; it starts empty and only ever grows.
#[derive(Debug)]
pub struct Matrix {
    values: Vec<Vec<Rational>>,
    num_rows: usize,
    num_cols: usize,
}

impl View for Matrix {
    type V = Seq<Seq<real>>;

    /// The rows of the matrix, each as the sequence of its values.
    closed spec fn view(&self) -> Seq<Seq<real>> {
        Seq::new(self.values@.len(), |i: int| row_values(self.values@[i]@))
    }
}

impl Matrix {
    /// The number of rows.
    pub closed spec fn rows(&self) -> nat {
        self.num_rows as nat
    }

    /// The number of columns. An empty matrix may have columns too.
    pub closed spec fn cols(&self) -> nat {
        self.num_cols as nat
    }

    /// The counts agree with what is stored, and every row is full.
    pub closed spec fn wf(&self) -> bool {
        &&& self.values@.len() == self.num_rows
        &&& forall|i: int| 0 <= i < self.values@.len() ==> (#[trigger] self.values@[i])@.len() == self.num_cols
    }

    /// A well-formed matrix has `rows()` rows of `cols()` values each.
    pub proof fn lemma_shape(&self)
        requires
            self.wf(),
        ensures
            self@.len() == self.rows(),
            forall|i: int| 0 <= i < self.rows() ==> (#[trigger] self@[i]).len() == self.cols(),
    {
    }

    /// The empty matrix: no rows, no columns.
    pub fn new() -> (m: Matrix)
        ensures
            m.wf(),
            m.rows() == 0,
            m.cols() == 0,
            m@ == Seq::<Seq<real>>::empty(),
    {
        let m = Matrix { values: Vec::new(), num_rows: 0, num_cols: 0 };
        assert(m@ =~= Seq::<Seq<real>>::empty());
        m
    }

    /// Appends a row of zeros and returns its index.
    pub fn add_row(&mut self) -> (index: usize)
        requires
            old(self).wf(),
            old(self).rows() < usize::MAX,
        ensures
            final(self).wf(),
            index == old(self).rows(),
            final(self).rows() == old(self).rows() + 1,
            final(self).cols() == old(self).cols(),
            final(self)@ == old(self)@.push(zero_row(old(self).cols())),
    {
        let mut new_row: Vec<Rational> = Vec::new();
        let mut j: usize = 0;
        while j < self.num_cols
            invariant
                j <= self.num_cols,
                new_row@.len() == j,
                forall|k: int| 0 <= k < j ==> (#[trigger] new_row@[k])@ == 0real,
            decreases self.num_cols - j,
        {
            new_row.push(Rational::zero());
            j += 1;
        }
        assert(row_values(new_row@) =~= zero_row(self.num_cols as nat));
        self.values.push(new_row);
        self.num_rows += 1;
        assert(self@ =~= old(self)@.push(zero_row(old(self).cols())));
        self.num_rows - 1
    }

    /// Appends a zero to every row and returns the index of the new column.
    pub fn add_column(&mut self) -> (index: usize)
        requires
            old(self).wf(),
            old(self).cols() < usize::MAX,
        ensures
            final(self).wf(),
            index == old(self).cols(),
            final(self).cols() == old(self).cols() + 1,
            final(self).rows() == old(self).rows(),
            final(self)@ == Seq::new(old(self).rows(), |i: int| old(self)@[i].push(0real)),
    {
        let mut i: usize = 0;
        while i < self.num_rows
            invariant
                i <= self.num_rows,
                self.num_rows == old(self).num_rows,
                self.num_cols == old(self).num_cols,
                self.values@.len() == self.num_rows,
                forall|k: int| 0 <= k < i ==> (#[trigger] self.values@[k])@ == old(self).values@[k]@.push(
                    self.values@[k]@[self.num_cols as int],
                ) && self.values@[k]@[self.num_cols as int]@ == 0real,
                forall|k: int| i <= k < self.num_rows ==> (#[trigger] self.values@[k]) == old(self).values@[k],
                old(self).wf(),
            decreases self.num_rows - i,
        {
            self.values[i].push(Rational::zero());
            i += 1;
        }
        self.num_cols += 1;
        assert forall|k: int| 0 <= k < self.rows() implies #[trigger] self@[k] =~= old(self)@[k].push(0real) by {
            assert(self.values@[k]@ == old(self).values@[k]@.push(self.values@[k]@[old(self).num_cols as int]));
        }
        assert(self@ =~= Seq::new(old(self).rows(), |i: int| old(self)@[i].push(0real)));
        self.num_cols - 1
    }

    /// Overwrites a cell that is known to exist.
    pub(crate) fn put(&mut self, row: usize, column: usize, value: Rational)
        requires
            old(self).wf(),
            row < old(self).rows(),
            column < old(self).cols(),
        ensures
            final(self).wf(),
            final(self).rows() == old(self).rows(),
            final(self).cols() == old(self).cols(),
            final(self)@ == old(self)@.update(
                row as int,
                old(self)@[row as int].update(column as int, value@),
            ),
    {
        self.values[row][column] = value;
        assert forall|i: int| 0 <= i < self.rows() implies #[trigger] self@[i] =~= old(self)@.update(
            row as int,
            old(self)@[row as int].update(column as int, value@),
        )[i] by {
            assert(self.values@[i] == if i == row {
                self.values@[row as int]
            } else {
                old(self).values@[i]
            });
        }
        assert(self@ =~= old(self)@.update(
            row as int,
            old(self)@[row as int].update(column as int, value@),
        ));
    }

    /// Reads a cell that is known to exist.
    pub(crate) fn at(&self, row: usize, column: usize) -> (v: Rational)
        requires
            self.wf(),
            row < self.rows(),
            column < self.cols(),
        ensures
            v@ == self@[row as int][column as int],
    {
        self.values[row][column]
    }

    /// Overwrites one cell, or reports which index is out of range and
    /// leaves the matrix as it was.
    pub fn set_value(&mut self, row: usize, column: usize, value: Rational) -> (r: Result<(), MatrixError>)
        requires
            old(self).wf(),
        ensures
            final(self).wf(),
            final(self).rows() == old(self).rows(),
            final(self).cols() == old(self).cols(),
            row >= old(self).rows() ==> r == Err::<(), MatrixError>(MatrixError::RowOutOfRange),
            row < old(self).rows() && column >= old(self).cols() ==> r == Err::<(), MatrixError>(
                MatrixError::ColumnOutOfRange,
            ),
            row < old(self).rows() && column < old(self).cols() ==> r.is_ok(),
            r.is_ok() ==> final(self)@ == old(self)@.update(
                row as int,
                old(self)@[row as int].update(column as int, value@),
            ),
            r.is_err() ==> final(self)@ == old(self)@,
    {
        if row >= self.num_rows {
            return Err(MatrixError::RowOutOfRange);
        }
        if column >= self.num_cols {
            return Err(MatrixError::ColumnOutOfRange);
        }
        self.put(row, column, value);
        Ok(())
    }

    /// Reads one cell, or reports which index is out of range.
    pub fn get_value(&self, row: usize, column: usize) -> (r: Result<Rational, MatrixError>)
        requires
            self.wf(),
        ensures
            row >= self.rows() ==> r == Err::<Rational, MatrixError>(MatrixError::RowOutOfRange),
            row < self.rows() && column >= self.cols() ==> r == Err::<Rational, MatrixError>(
                MatrixError::ColumnOutOfRange,
            ),
            row < self.rows() && column < self.cols() ==> r.is_ok(),
            r matches Ok(v) ==> v@ == self@[row as int][column as int],
    {
        if row >= self.num_rows {
            return Err(MatrixError::RowOutOfRange);
        }
        if column >= self.num_cols {
            return Err(MatrixError::ColumnOutOfRange);
        }
        Ok(self.at(row, column))
    }

    /// The number of columns.
    pub fn num_cols(&self) -> (n: usize)
        ensures
            n == self.cols(),
    {
        self.num_cols
    }

    /// The number of rows.
    pub fn num_rows(&self) -> (n: usize)
        ensures
            n == self.rows(),
    {
        self.num_rows
    }
}

} // verus!
