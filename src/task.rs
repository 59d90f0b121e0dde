//! The unit of work (one output cell), its reply, and the dot product that a
//! worker computes for it.
use vstd::prelude::*;

use crate::scalar::Scalar;

verus! {

/// Why a multiplication or a dot product did not produce a value.
#[derive(PartialEq, Eq, Structural, Debug, Clone, Copy)]
pub enum MatrixError {
    /// The operands' dimensions do not fit together.
    ShapeMismatch,
    /// A reply for some output cell was missing, repeated or out of range.
    WorkerUnavailable,
}

/// `a[0] * b[0] + ... + a[n - 1] * b[n - 1]`, summed from the left starting at zero.
pub open spec fn dot_prefix<T: Scalar>(a: Seq<T>, b: Seq<T>, n: nat) -> T
    decreases n,
{
    if n == 0 {
        T::zero_spec()
    } else {
        dot_prefix(a, b, (n - 1) as nat).plus_spec(a[n - 1].times_spec(b[n - 1]))
    }
}

/// The inner product of `a` and `b`.
pub open spec fn dot<T: Scalar>(a: Seq<T>, b: Seq<T>) -> T {
    dot_prefix(a, b, a.len())
}

/// The inner product of two vectors of equal length; vectors of unequal
/// length are refused before anything is summed.
pub fn dot_product<T: Scalar>(a: Vec<T>, b: Vec<T>) -> (r: Result<T, MatrixError>)
    ensures
        a@.len() != b@.len() <==> r == Err::<T, MatrixError>(MatrixError::ShapeMismatch),
        a@.len() == b@.len() ==> r == Ok::<T, MatrixError>(dot(a@, b@)),
{
    if a.len() != b.len() {
        return Err(MatrixError::ShapeMismatch);
    }
    let mut sum = T::zero();
    let mut i: usize = 0;
    while i < a.len()
        invariant
            a@.len() == b@.len(),
            i <= a@.len(),
            sum == dot_prefix(a@, b@, i as nat),
        decreases a@.len() - i,
    {
        sum = sum.plus(a[i].times(b[i]));
        i = i + 1;
    }
    Ok(sum)
}

/// The work for output cell `idx`: a row of the left operand and a column of
/// the right one.
pub struct MsgInput<T> {
    idx: usize,
    row: Vec<T>,
    col: Vec<T>,
}

impl<T> MsgInput<T> {
    pub closed spec fn index(self) -> nat {
        self.idx as nat
    }

    pub closed spec fn row_vector(self) -> Seq<T> {
        self.row@
    }

    pub closed spec fn col_vector(self) -> Seq<T> {
        self.col@
    }

    pub fn new(idx: usize, row: Vec<T>, col: Vec<T>) -> (r: Self)
        ensures
            r.index() == idx,
            r.row_vector() == row@,
            r.col_vector() == col@,
    {
        MsgInput { idx, row, col }
    }

    pub fn idx(&self) -> (r: usize)
        ensures
            r == self.index(),
    {
        self.idx
    }
}

/// The value computed for output cell `idx`.
#[derive(Debug)]
pub struct MsgOutput<T> {
    idx: usize,
    value: T,
}

impl<T: Scalar> MsgOutput<T> {
    pub closed spec fn index(self) -> nat {
        self.idx as nat
    }

    pub closed spec fn val(self) -> T {
        self.value
    }

    pub fn new(idx: usize, value: T) -> (r: Self)
        ensures
            r.index() == idx,
            r.val() == value,
    {
        MsgOutput { idx, value }
    }

    pub fn idx(&self) -> (r: usize)
        ensures
            r == self.index(),
    {
        self.idx
    }

    pub fn value(&self) -> (r: T)
        ensures
            r == self.val(),
    {
        self.value
    }
}

/// What a worker does with one task: the dot product of its two vectors,
/// tagged with the task's cell.
pub fn run_task<T: Scalar>(task: MsgInput<T>) -> (r: Result<MsgOutput<T>, MatrixError>)
    ensures
        task.row_vector().len() != task.col_vector().len() ==> r == Err::<MsgOutput<T>, MatrixError>(
            MatrixError::ShapeMismatch,
        ),
        task.row_vector().len() == task.col_vector().len() ==> r is Ok,
        r matches Ok(o) ==> o.index() == task.index() && o.val() == dot(
            task.row_vector(),
            task.col_vector(),
        ),
{
    let MsgInput { idx, row, col } = task;
    match dot_product(row, col) {
        Ok(value) => Ok(MsgOutput { idx, value }),
        Err(e) => Err(e),
    }
}

} // verus!
