//! The tensor layout: a matrix of `rows` by `cols` entries stored row by
//! row in one flat vector. The arithmetic on entries lives with the
//! callers; this module moves entries between layouts.

use vstd::prelude::*;
use crate::layout::{lemma_cell, lemma_offset};

verus! {

/// A matrix stored in row-major order: entry `(i, j)` is `data[i * cols + j]`.
pub struct Tensor<T> {
    pub data: Vec<T>,
    pub rows: usize,
    pub cols: usize,
}

/// The rows of a nested list, one after another.
pub open spec fn flattened<T>(rows: Seq<Seq<T>>) -> Seq<T>
    decreases rows.len(),
{
    if rows.len() == 0 {
        Seq::empty()
    } else {
        flattened(rows.drop_last()) + rows.last()
    }
}

/// The row-major data of the transpose of a `rows` by `cols` matrix:
/// offset `k` of the result holds entry `(k % rows, k / rows)` of the
/// original.
pub open spec fn transposed<T>(data: Seq<T>, rows: nat, cols: nat) -> Seq<T> {
    Seq::new(rows * cols, |k: int| data[(k % rows as int) * cols + k / rows as int])
}

/// Entry `(i, j)` of a matrix is entry `(j, i)` of its transpose.
pub proof fn lemma_transposed_entry<T>(data: Seq<T>, rows: nat, cols: nat, i: int, j: int)
    requires
        0 <= i < rows,
        0 <= j < cols,
    ensures
        0 <= j * rows + i < transposed(data, rows, cols).len(),
        transposed(data, rows, cols)[j * rows + i] == data[i * cols + j],
{
    lemma_cell(j, i, cols as int, rows as int);
    assert(cols * rows == rows * cols) by (nonlinear_arith);
}

/// Transposing twice gives back the matrix.
pub proof fn lemma_transpose_twice<T>(data: Seq<T>, rows: nat, cols: nat)
    requires
        data.len() == rows * cols,
    ensures
        transposed(transposed(data, rows, cols), cols, rows) == data,
{
    let t1 = transposed(data, rows, cols);
    let t2 = transposed(t1, cols, rows);
    assert(cols * rows == rows * cols) by (nonlinear_arith);
    assert forall|k: int| 0 <= k < data.len() implies #[trigger] t2[k] == data[k] by {
        lemma_offset(k, rows as int, cols as int);
        let i = k / cols as int;
        let j = k % cols as int;
        lemma_cell(j, i, cols as int, rows as int);
        assert(t2[k] == t1[j * rows + i]);
        assert(t1[j * rows + i] == data[i * cols + j]);
    }
    assert(t2 =~= data);
}

impl<T: Copy> Tensor<T> {
    /// A matrix from its rows; the column count is the length of the first
    /// row (0 when there is none), and the data is all rows in order.
    pub fn from_data(data: Vec<Vec<T>>) -> (t: Self)
        ensures
            t.rows == data@.len(),
            t.cols == (if data@.len() > 0 {
                data@[0]@.len()
            } else {
                0
            }),
            t.data@ == flattened(data@.map_values(|r: Vec<T>| r@)),
    {
        let rows = data.len();
        let cols = if rows > 0 {
            data[0].len()
        } else {
            0
        };
        let ghost nested = data@.map_values(|r: Vec<T>| r@);
        let mut flat: Vec<T> = Vec::new();
        let mut i: usize = 0;
        while i < rows
            invariant
                rows == data@.len(),
                nested == data@.map_values(|r: Vec<T>| r@),
                i <= rows,
                flat@ == flattened(nested.take(i as int)),
            decreases rows - i,
        {
            proof {
                assert(nested.take(i + 1).drop_last() == nested.take(i as int));
            }
            let row = &data[i];
            let ghost before = flat@;
            let mut j: usize = 0;
            while j < row.len()
                invariant
                    j <= row@.len(),
                    flat@ == before + row@.take(j as int),
                decreases row.len() - j,
            {
                flat.push(row[j]);
                j = j + 1;
                proof {
                    assert(flat@ == before + row@.take(j as int));
                }
            }
            proof {
                assert(row@.take(row@.len() as int) == row@);
                assert(nested.take(i + 1).last() == row@);
            }
            i = i + 1;
        }
        proof {
            assert(nested.take(rows as int) == nested);
        }
        Tensor { data: flat, rows, cols }
    }

    /// A matrix from row-major data and its shape, taken as given.
    pub fn from_flat_data(data: Vec<T>, rows: usize, cols: usize) -> (t: Self)
        ensures
            t.data == data,
            t.rows == rows,
            t.cols == cols,
    {
        Tensor { data, rows, cols }
    }

    /// The transpose: `cols` by `rows`, entry `(j, i)` being entry `(i, j)`
    /// of this matrix. Data past `rows * cols` is not read.
    pub fn transpose(&self) -> (t: Self)
        requires
            self.rows * self.cols <= self.data@.len(),
        ensures
            t.rows == self.cols,
            t.cols == self.rows,
            t.data@ == transposed(self.data@, self.rows as nat, self.cols as nat),
    {
        let rows = self.rows;
        let cols = self.cols;
        let ghost d = self.data@;
        let dlen = self.data.len();
        let mut out: Vec<T> = Vec::new();
        let mut j: usize = 0;
        while j < cols
            invariant
                rows == self.rows,
                cols == self.cols,
                d == self.data@,
                dlen == d.len(),
                rows * cols <= d.len(),
                j <= cols,
                out@.len() == j * rows,
                forall|k: int|
                    0 <= k < out@.len() ==> #[trigger] out@[k] == d[(k % rows as int) * cols + k
                        / rows as int],
            decreases cols - j,
        {
            let mut i: usize = 0;
            while i < rows
                invariant
                    rows == self.rows,
                    cols == self.cols,
                    d == self.data@,
                    dlen == d.len(),
                    rows * cols <= d.len(),
                    j < cols,
                    i <= rows,
                    out@.len() == j * rows + i,
                    forall|k: int|
                        0 <= k < out@.len() ==> #[trigger] out@[k] == d[(k % rows as int) * cols
                            + k / rows as int],
                decreases rows - i,
            {
                proof {
                    lemma_cell(i as int, j as int, rows as int, cols as int);
                    lemma_cell(j as int, i as int, cols as int, rows as int);
                }
                let x = self.data[i * cols + j];
                out.push(x);
                i = i + 1;
            }
            proof {
                assert((j + 1) * rows == j * rows + rows) by (nonlinear_arith);
            }
            j = j + 1;
        }
        proof {
            assert(cols * rows == rows * cols) by (nonlinear_arith);
            assert(out@ =~= transposed(d, rows as nat, cols as nat));
        }
        Tensor { data: out, rows: cols, cols: rows }
    }
}

} // verus!
