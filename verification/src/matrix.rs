//! The feature matrix: a rectangular table with at least one row, which
//! does not change once it is built.

use crate::error::ShapeError;
use vstd::prelude::*;

verus! {

/// The cells of a vector of rows, row by row.
pub open spec fn cells_of<T>(rows: Seq<Vec<T>>) -> Seq<Seq<T>> {
    Seq::new(rows.len(), |i: int| rows[i]@)
}

/// A table has a first row, and every row is as long as the first.
pub open spec fn is_table<T>(cells: Seq<Seq<T>>) -> bool {
    &&& cells.len() >= 1
    &&& forall|i: int| 0 <= i < cells.len() ==> (#[trigger] cells[i]).len() == cells[0].len()
}

/// The column of `cells` at `col`, top to bottom.
pub open spec fn column_of<T>(cells: Seq<Seq<T>>, col: int) -> Seq<T> {
    Seq::new(cells.len(), |i: int| cells[i][col])
}

/// `cells` without its first `n` columns.
pub open spec fn without_columns<T>(cells: Seq<Seq<T>>, n: int) -> Seq<Seq<T>> {
    Seq::new(cells.len(), |i: int| cells[i].subrange(n, cells[i].len() as int))
}

/// The rows of a table one after another hold as many cells as the table
/// has rows times columns.
pub proof fn lemma_flat_len<T>(cells: Seq<Seq<T>>, cols: nat)
    requires
        forall|i: int| 0 <= i < cells.len() ==> (#[trigger] cells[i]).len() == cols,
    ensures
        cells.flatten().len() == cells.len() * cols,
    decreases cells.len(),
{
    if cells.len() > 0 {
        let front = cells.drop_last();
        lemma_flat_len(front, cols);
        front.lemma_flatten_push(cells.last());
        assert(front.push(cells.last()) =~= cells);
        assert((cells.len() - 1) * cols + cols == cells.len() * cols) by (nonlinear_arith);
    }
}

/// Row-major order: in the rows of a table one after another, the cell of
/// row `i` and column `j` stands at `i * cols + j`.
pub proof fn lemma_flat_index<T>(cells: Seq<Seq<T>>, cols: nat, i: int, j: int)
    requires
        forall|k: int| 0 <= k < cells.len() ==> (#[trigger] cells[k]).len() == cols,
        0 <= i < cells.len(),
        0 <= j < cols,
    ensures
        0 <= i * cols + j < cells.flatten().len(),
        cells.flatten()[i * cols + j] == cells[i][j],
    decreases cells.len(),
{
    let front = cells.drop_last();
    lemma_flat_len(front, cols);
    lemma_flat_len(cells, cols);
    front.lemma_flatten_push(cells.last());
    assert(front.push(cells.last()) =~= cells);
    assert(0 <= i * cols) by (nonlinear_arith)
        requires
            0 <= i,
            0 <= cols,
    ;
    if i < cells.len() - 1 {
        lemma_flat_index(front, cols, i, j);
    } else {
        assert(i * cols + j == front.flatten().len() + j);
    }
}

/// A copy of one row, value by value.
pub fn copy_row<T: Copy>(row: &Vec<T>) -> (copy: Vec<T>)
    ensures
        copy@ == row@,
{
    let m: usize = row.len();
    let mut copy: Vec<T> = Vec::new();
    let mut j: usize = 0;
    while j < m
        invariant
            j <= m,
            m == row@.len(),
            copy@ == row@.take(j as int),
        decreases m - j,
    {
        copy.push(row[j]);
        proof {
            assert(row@.take(j + 1) =~= row@.take(j as int).push(row@[j as int]));
        }
        j += 1;
    }
    proof {
        assert(row@.take(m as int) =~= row@);
    }
    copy
}

/// A rectangular table of values; row `i` is one observed unit, column `j`
/// one feature.
#[derive(Debug, PartialEq)]
pub struct FeatureMatrix<T> {
    rows: Vec<Vec<T>>,
}

impl<T> View for FeatureMatrix<T> {
    type V = Seq<Seq<T>>;

    closed spec fn view(&self) -> Seq<Seq<T>> {
        cells_of(self.rows@)
    }
}

impl<T> FeatureMatrix<T> {
    /// Every matrix is a table, whoever holds it.
    #[verifier::type_invariant]
    pub open spec fn is_rectangular(&self) -> bool {
        is_table(self@)
    }

    /// The number of columns.
    pub open spec fn width(&self) -> nat {
        self@[0].len()
    }
}

impl<T: Copy> FeatureMatrix<T> {
    /// Builds a matrix from its rows, or says why they are no table.
    pub fn from_rows(rows: Vec<Vec<T>>) -> (r: Result<Self, ShapeError>)
        ensures
            match r {
                Ok(m) => is_table(cells_of(rows@)) && m@ == cells_of(rows@),
                Err(ShapeError::EmptyTable) => rows@.len() == 0,
                Err(ShapeError::RaggedTable) => rows@.len() > 0 && !is_table(cells_of(rows@)),
                Err(_) => false,
            },
    {
        let n: usize = rows.len();
        if n == 0 {
            return Err(ShapeError::EmptyTable);
        }
        let cols: usize = rows[0].len();
        let mut i: usize = 1;
        while i < n
            invariant
                1 <= i <= n,
                n == rows@.len(),
                cols == rows@[0]@.len(),
                forall|k: int| 0 <= k < i ==> (#[trigger] rows@[k])@.len() == cols,
            decreases n - i,
        {
            if rows[i].len() != cols {
                assert(cells_of(rows@)[i as int].len() != cells_of(rows@)[0].len());
                return Err(ShapeError::RaggedTable);
            }
            i += 1;
        }
        Ok(FeatureMatrix { rows })
    }

    /// Builds a matrix from rows that are known to be a table.
    pub(crate) fn from_table(rows: Vec<Vec<T>>) -> (m: Self)
        requires
            is_table(cells_of(rows@)),
        ensures
            m@ == cells_of(rows@),
    {
        FeatureMatrix { rows }
    }

    /// The number of rows, which is at least one.
    pub fn n_rows(&self) -> (n: usize)
        ensures
            n == self@.len(),
            n >= 1,
            is_table(self@),
    {
        proof {
            use_type_invariant(self);
        }
        self.rows.len()
    }

    /// The number of columns, the length of every row.
    pub fn n_cols(&self) -> (n: usize)
        ensures
            n == self.width(),
            is_table(self@),
    {
        proof {
            use_type_invariant(self);
        }
        self.rows[0].len()
    }

    /// The row at `i`.
    pub fn row(&self, i: usize) -> (r: &Vec<T>)
        requires
            i < self@.len(),
        ensures
            r@ == self@[i as int],
            r@.len() == self.width(),
    {
        proof {
            use_type_invariant(self);
        }
        &self.rows[i]
    }

    /// The value in row `i` and column `j`.
    pub fn get(&self, i: usize, j: usize) -> (x: T)
        requires
            i < self@.len(),
            j < self.width(),
        ensures
            x == self@[i as int][j as int],
    {
        proof {
            use_type_invariant(self);
            assert(self@[i as int].len() == self@[0].len());
        }
        self.rows[i][j]
    }

    /// The cells in row-major order: the rows one after another.
    pub fn to_flat(&self) -> (flat: Vec<T>)
        ensures
            flat@ == self@.flatten(),
            flat@.len() == self@.len() * self.width(),
    {
        proof {
            use_type_invariant(self);
            lemma_flat_len(self@, self.width());
        }
        let n: usize = self.rows.len();
        let mut flat: Vec<T> = Vec::new();
        let mut i: usize = 0;
        while i < n
            invariant
                i <= n,
                n == self@.len(),
                self@ == cells_of(self.rows@),
                flat@ == self@.take(i as int).flatten(),
            decreases n - i,
        {
            let row = &self.rows[i];
            let m: usize = row.len();
            let ghost before = flat@;
            let mut j: usize = 0;
            while j < m
                invariant
                    j <= m,
                    m == row@.len(),
                    flat@ == before + row@.take(j as int),
                decreases m - j,
            {
                flat.push(row[j]);
                proof {
                    assert(row@.take(j + 1) =~= row@.take(j as int).push(row@[j as int]));
                }
                j += 1;
            }
            proof {
                assert(row@.take(m as int) =~= row@);
                assert(self@.take(i + 1) =~= self@.take(i as int).push(row@));
                self@.take(i as int).lemma_flatten_push(row@);
            }
            i += 1;
        }
        proof {
            assert(self@.take(n as int) =~= self@);
        }
        flat
    }

    /// Parts the first column from the rest: the labels, top to bottom, and
    /// the matrix of the remaining columns.
    pub fn split_label_column(&self) -> (r: Result<(Vec<T>, FeatureMatrix<T>), ShapeError>)
        ensures
            match r {
                Ok((labels, features)) => {
                    &&& self.width() >= 1
                    &&& labels@ == column_of(self@, 0)
                    &&& features@ == without_columns(self@, 1)
                },
                Err(e) => e == ShapeError::NoLabelColumn && self.width() == 0,
            },
    {
        proof {
            use_type_invariant(self);
        }
        let n: usize = self.rows.len();
        let cols: usize = self.rows[0].len();
        if cols == 0 {
            return Err(ShapeError::NoLabelColumn);
        }
        let mut labels: Vec<T> = Vec::new();
        let mut rest: Vec<Vec<T>> = Vec::new();
        let mut i: usize = 0;
        while i < n
            invariant
                i <= n,
                n == self@.len(),
                cols == self.width(),
                cols >= 1,
                is_table(self@),
                self@ == cells_of(self.rows@),
                labels@ == column_of(self@, 0).take(i as int),
                cells_of(rest@) == without_columns(self@, 1).take(i as int),
            decreases n - i,
        {
            let row = &self.rows[i];
            assert(row@ == self@[i as int]);
            labels.push(row[0]);
            let mut tail: Vec<T> = Vec::new();
            let mut j: usize = 1;
            while j < cols
                invariant
                    1 <= j <= cols,
                    cols == row@.len(),
                    tail@ == row@.subrange(1, j as int),
                decreases cols - j,
            {
                tail.push(row[j]);
                proof {
                    assert(row@.subrange(1, j + 1) =~= row@.subrange(1, j as int).push(
                        row@[j as int],
                    ));
                }
                j += 1;
            }
            let ghost rest_before = rest@;
            rest.push(tail);
            proof {
                assert(column_of(self@, 0).take(i + 1) =~= column_of(self@, 0).take(
                    i as int,
                ).push(row@[0]));
                assert(cells_of(rest@) =~= cells_of(rest_before).push(tail@));
                assert(without_columns(self@, 1).take(i + 1) =~= without_columns(self@, 1).take(
                    i as int,
                ).push(row@.subrange(1, cols as int)));
            }
            i += 1;
        }
        proof {
            assert(column_of(self@, 0).take(n as int) =~= column_of(self@, 0));
            assert(without_columns(self@, 1).take(n as int) =~= without_columns(self@, 1));
            assert(is_table(without_columns(self@, 1)));
        }
        Ok((labels, FeatureMatrix::from_table(rest)))
    }
}

impl<T: Copy> Clone for FeatureMatrix<T> {
    /// A copy of the matrix, cell by cell.
    fn clone(&self) -> (copy: Self)
        ensures
            copy@ == self@,
    {
        proof {
            use_type_invariant(self);
        }
        let n: usize = self.rows.len();
        let mut rows: Vec<Vec<T>> = Vec::new();
        let mut i: usize = 0;
        while i < n
            invariant
                i <= n,
                n == self@.len(),
                self@ == cells_of(self.rows@),
                cells_of(rows@) == self@.take(i as int),
            decreases n - i,
        {
            let copied = copy_row(&self.rows[i]);
            let ghost before = rows@;
            rows.push(copied);
            proof {
                assert(cells_of(rows@) =~= cells_of(before).push(copied@));
                assert(self@.take(i + 1) =~= self@.take(i as int).push(self@[i as int]));
            }
            i += 1;
        }
        proof {
            assert(self@.take(n as int) =~= self@);
        }
        FeatureMatrix { rows }
    }
}

} // verus!
