//! A dense matrix stored row by row.
use vstd::prelude::*;
use vstd::string::StringExecFns;

use crate::scalar::Scalar;

verus! {

/// A `row` by `col` matrix whose cell `(i, j)` is `data[i * col + j]`.
#[derive(PartialEq, Debug)]
pub struct Matrix<T> {
    data: Vec<T>,
    row: usize,
    col: usize,
}

/// `i * c + j` lies before `r * c` when `i < r` and `j < c`.
pub proof fn lemma_cell_in_bounds(i: int, j: int, r: int, c: int)
    requires
        0 <= i < r,
        0 <= j < c,
    ensures
        0 <= i * c + j < r * c,
{
    assert(0 <= i * c + j < r * c) by (nonlinear_arith)
        requires
            0 <= i < r,
            0 <= j < c,
    ;
}

/// The cells `d[start]`, ..., `d[start + len - 1]` in text, separated by `", "`.
pub open spec fn row_text<T: Scalar>(d: Seq<T>, start: int, len: nat) -> Seq<char>
    decreases len,
{
    if len == 0 {
        Seq::empty()
    } else if len == 1 {
        d[start].text_spec()
    } else {
        row_text(d, start, (len - 1) as nat) + seq![',', ' '] + d[start + len - 1].text_spec()
    }
}

/// The first `rows` rows of a grid with `cols` columns, separated by `"\n"`,
/// with no separator after the last row.
pub open spec fn grid_text<T: Scalar>(d: Seq<T>, rows: nat, cols: nat) -> Seq<char>
    decreases rows,
{
    if rows == 0 {
        Seq::empty()
    } else if rows == 1 {
        row_text(d, 0, cols)
    } else {
        grid_text(d, (rows - 1) as nat, cols) + seq!['\n'] + row_text(
            d,
            (rows - 1) * cols,
            cols,
        )
    }
}

impl<T> Matrix<T> {
    #[verifier::type_invariant]
    spec fn shaped(self) -> bool {
        self.data@.len() == self.row * self.col
    }

    /// The number of rows.
    pub closed spec fn rows(self) -> nat {
        self.row as nat
    }

    /// The number of columns.
    pub closed spec fn cols(self) -> nat {
        self.col as nat
    }

    /// The cells in row-major order.
    pub closed spec fn cells(self) -> Seq<T> {
        self.data@
    }

    /// The cell in row `i` and column `j`.
    pub open spec fn cell(self, i: int, j: int) -> T {
        self.cells()[i * self.cols() + j]
    }

    /// A matrix of `row` rows and `col` columns over `data`, row by row.
    pub fn new(data: Vec<T>, row: usize, col: usize) -> (r: Self)
        requires
            data@.len() == row * col,
        ensures
            r.cells() == data@,
            r.rows() == row,
            r.cols() == col,
    {
        Matrix { data, row, col }
    }

    pub fn row(&self) -> (r: usize)
        ensures
            r == self.rows(),
    {
        self.row
    }

    pub fn col(&self) -> (r: usize)
        ensures
            r == self.cols(),
    {
        self.col
    }

    /// The cells in row-major order.
    pub fn data(&self) -> (r: &Vec<T>)
        ensures
            r@ == self.cells(),
            r@.len() == self.rows() * self.cols(),
    {
        proof {
            use_type_invariant(self);
        }
        &self.data
    }
}

impl<T: Scalar> Matrix<T> {
    /// The cell in row `i` and column `j`.
    pub fn get(&self, i: usize, j: usize) -> (r: T)
        requires
            i < self.rows(),
            j < self.cols(),
        ensures
            r == self.cell(i as int, j as int),
    {
        proof {
            use_type_invariant(self);
            lemma_cell_in_bounds(i as int, j as int, self.row as int, self.col as int);
        }
        // the vector's length bounds the index below `usize::MAX`
        let _len = self.data.len();
        self.data[i * self.col + j]
    }

    /// The matrix as text: the cells of a row separated by `", "`, the rows
    /// separated by `"\n"`, with no separator after the last row.
    pub fn display(&self) -> (r: String)
        ensures
            r@ == grid_text(self.cells(), self.rows(), self.cols()),
    {
        proof {
            use_type_invariant(self);
        }
        let total = self.data.len();
        let mut s = String::new();
        let mut i: usize = 0;
        while i < self.row
            invariant
                i <= self.row,
                self.data@.len() == self.row * self.col,
                total == self.data@.len(),
                s@ == grid_text(self.data@, i as nat, self.col as nat),
            decreases self.row - i,
        {
            let ghost done = s@;
            if i > 0 {
                s.append("\n");
                proof {
                    reveal_strlit("\n");
                    assert(s@ =~= done + seq!['\n']);
                }
            }
            let ghost before = s@;
            let mut j: usize = 0;
            while j < self.col
                invariant
                    i < self.row,
                    j <= self.col,
                    self.data@.len() == self.row * self.col,
                    total == self.data@.len(),
                    done == grid_text(self.data@, i as nat, self.col as nat),
                    before == (if i > 0 { done + seq!['\n'] } else { done }),
                    s@ == before + row_text(self.data@, i * self.col, j as nat),
                decreases self.col - j,
            {
                proof {
                    lemma_cell_in_bounds(i as int, j as int, self.row as int, self.col as int);
                }
                if j > 0 {
                    s.append(", ");
                    proof {
                        reveal_strlit(", ");
                    }
                }
                let t = self.data[i * self.col + j].text();
                s.append(t.as_str());
                proof {
                    assert(s@ =~= before + row_text(self.data@, i * self.col, (j + 1) as nat));
                }
                j = j + 1;
            }
            proof {
                if i == 0 {
                    assert(s@ =~= grid_text(self.data@, 1, self.col as nat));
                } else {
                    assert(s@ =~= grid_text(self.data@, (i + 1) as nat, self.col as nat));
                }
            }
            i = i + 1;
        }
        s
    }
}

} // verus!
