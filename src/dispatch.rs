//! Splitting a product into one task per output cell, routing the tasks to a
//! fixed pool of workers, and assembling the replies by cell index.
use vstd::prelude::*;

use crate::matrix::{lemma_cell_in_bounds, Matrix};
use crate::scalar::Scalar;
use crate::task::{dot, dot_prefix, run_task, MatrixError, MsgInput, MsgOutput};

verus! {

/// The number of workers in a pool.
pub const WORKERS: usize = 4;

/// Row `i` of `m`.
pub open spec fn row_of<T>(m: Matrix<T>, i: int) -> Seq<T> {
    m.cells().subrange(i * m.cols(), (i + 1) * m.cols())
}

/// Column `j` of `m`.
pub open spec fn col_of<T>(m: Matrix<T>, j: int) -> Seq<T> {
    Seq::new(m.rows(), |k: int| m.cells()[k * m.cols() + j])
}

/// Cell `idx` (counted row by row) of the product `a * b`.
pub open spec fn product_cell<T: Scalar>(a: Matrix<T>, b: Matrix<T>, idx: int) -> T {
    dot(row_of(a, idx / (b.cols() as int)), col_of(b, idx % (b.cols() as int)))
}

/// The cells of the product `a * b`, row by row.
pub open spec fn product_cells<T: Scalar>(a: Matrix<T>, b: Matrix<T>) -> Seq<T> {
    Seq::new(a.rows() * b.cols(), |idx: int| product_cell(a, b, idx))
}

/// Row `i` of an `r` by `c` grid lies inside it.
pub proof fn lemma_row_in_bounds(i: int, r: int, c: int)
    requires
        0 <= i < r,
        0 <= c,
    ensures
        0 <= i * c,
        (i + 1) * c <= r * c,
        i * c + c == (i + 1) * c,
{
    assert(0 <= i * c) by (nonlinear_arith)
        requires
            0 <= i,
            0 <= c,
    ;
    assert((i + 1) * c <= r * c) by (nonlinear_arith)
        requires
            0 <= i < r,
            0 <= c,
    ;
    assert(i * c + c == (i + 1) * c) by (nonlinear_arith);
}

/// Cell `idx` of an `r` by `c` grid is in row `idx / c` and column `idx % c`.
pub proof fn lemma_cell_position(idx: int, r: int, c: int)
    requires
        0 <= idx < r * c,
        0 <= r,
    ensures
        c > 0,
        0 <= idx / c < r,
        0 <= idx % c < c,
        idx == (idx / c) * c + idx % c,
{
    if c <= 0 {
        assert(r * c <= 0) by (nonlinear_arith)
            requires
                c <= 0,
                0 <= r,
        ;
    }
    let i = idx / c;
    let j = idx % c;
    vstd::arithmetic::div_mod::lemma_fundamental_div_mod(idx, c);
    vstd::arithmetic::div_mod::lemma_div_pos_is_pos(idx, c);
    assert(idx == i * c + j) by (nonlinear_arith)
        requires
            idx == c * i + j,
    ;
    if i >= r {
        assert(i * c + j >= r * c) by (nonlinear_arith)
            requires
                i >= r,
                j >= 0,
                c > 0,
        ;
    }
}

/// The cell at position `t` of worker `w`'s queue.
pub open spec fn routed_cell(w: int, t: int) -> int {
    w + WORKERS * t
}

/// How many of the cells `0..n` worker `w` receives.
pub open spec fn queue_len(n: nat, w: nat) -> nat {
    if w < n {
        ((n - w - 1) / (WORKERS as int) + 1) as nat
    } else {
        0
    }
}

/// Routing sends each cell below `n` to exactly one position of exactly one
/// worker's queue.
pub proof fn lemma_routed_once(n: nat, i: int)
    requires
        0 <= i < n,
    ensures
        exists|w: int, t: int|
            0 <= w < WORKERS && 0 <= t < queue_len(n, w as nat) && #[trigger] routed_cell(w, t) == i,
        forall|w1: int, t1: int, w2: int, t2: int|
            0 <= w1 < WORKERS && 0 <= w2 < WORKERS && 0 <= t1 && 0 <= t2 && #[trigger] routed_cell(
                w1,
                t1,
            ) == i && #[trigger] routed_cell(w2, t2) == i ==> w1 == w2 && t1 == t2,
{
    let w = i % (WORKERS as int);
    let t = i / (WORKERS as int);
    assert(routed_cell(w, t) == i);
    assert(t < queue_len(n, w as nat));
}

/// The worker that the task for cell `idx` goes to.
pub fn worker_of(idx: usize) -> (r: usize)
    ensures
        r == idx % WORKERS,
        r < WORKERS,
{
    idx % WORKERS
}

/// The task for cell `idx` of `a * b`: row `idx / b.col` of `a` and column
/// `idx % b.col` of `b`, both copied.
pub fn make_task<T: Scalar>(a: &Matrix<T>, b: &Matrix<T>, idx: usize) -> (r: MsgInput<T>)
    requires
        a.cols() == b.rows(),
        idx < a.rows() * b.cols(),
    ensures
        r.index() == idx,
        r.row_vector() == row_of(*a, idx as int / b.cols() as int),
        r.col_vector() == col_of(*b, idx as int % b.cols() as int),
        r.row_vector().len() == a.cols(),
        r.col_vector().len() == b.rows(),
{
    let ad = a.data();
    let bd = b.data();
    let alen = ad.len();
    let blen = bd.len();
    let ac = a.col();
    let bc = b.col();
    let br = b.row();
    proof {
        lemma_cell_position(idx as int, a.rows() as int, bc as int);
    }
    let i = idx / bc;
    let j = idx % bc;
    proof {
        lemma_row_in_bounds(i as int, a.rows() as int, ac as int);
    }
    let mut row: Vec<T> = Vec::new();
    let mut k: usize = 0;
    while k < ac
        invariant
            k <= ac,
            ac == a.cols(),
            ad@ == a.cells(),
            alen == ad@.len(),
            ad@.len() == a.rows() * a.cols(),
            i < a.rows(),
            i * ac + ac <= ad@.len(),
            row@ == ad@.subrange(i * ac, i * ac + k),
        decreases ac - k,
    {
        row.push(ad[i * ac + k]);
        proof {
            assert(row@ =~= ad@.subrange(i * ac, i * ac + k + 1));
        }
        k = k + 1;
    }
    let mut col: Vec<T> = Vec::new();
    let mut k: usize = 0;
    while k < br
        invariant
            k <= br,
            br == b.rows(),
            bc == b.cols(),
            j < bc,
            bd@ == b.cells(),
            blen == bd@.len(),
            bd@.len() == b.rows() * b.cols(),
            col@ == Seq::new(k as nat, |t: int| bd@[t * bc + j]),
        decreases br - k,
    {
        proof {
            lemma_cell_in_bounds(k as int, j as int, br as int, bc as int);
        }
        col.push(bd[k * bc + j]);
        proof {
            assert(col@ =~= Seq::new((k + 1) as nat, |t: int| bd@[t * bc + j]));
        }
        k = k + 1;
    }
    proof {
        assert(row@ =~= row_of(*a, idx as int / b.cols() as int));
        assert(col@ =~= col_of(*b, idx as int % b.cols() as int));
    }
    MsgInput::new(idx, row, col)
}

/// The queue of worker `w`: the tasks for cells `w`, `w + WORKERS`,
/// `w + 2 * WORKERS`, ... below `a.row * b.col`, in that order.
pub fn plan_queue<T: Scalar>(a: &Matrix<T>, b: &Matrix<T>, w: usize) -> (q: Vec<MsgInput<T>>)
    requires
        a.cols() == b.rows(),
        a.rows() * b.cols() <= usize::MAX,
        w < WORKERS,
    ensures
        q@.len() == queue_len(a.rows() * b.cols(), w as nat),
        w + WORKERS * q@.len() >= a.rows() * b.cols(),
        forall|t: int|
            0 <= t < q@.len() ==> {
                &&& (#[trigger] q@[t]).index() == routed_cell(w as int, t)
                &&& q@[t].index() == w + WORKERS * t
                &&& q@[t].index() < a.rows() * b.cols()
                &&& q@[t].row_vector() == row_of(*a, q@[t].index() as int / b.cols() as int)
                &&& q@[t].col_vector() == col_of(*b, q@[t].index() as int % b.cols() as int)
                &&& q@[t].row_vector().len() == q@[t].col_vector().len()
            },
{
    let n = a.row() * b.col();
    let mut q: Vec<MsgInput<T>> = Vec::new();
    let mut idx: usize = if w < n {
        w
    } else {
        n
    };
    while idx < n
        invariant
            n == a.rows() * b.cols(),
            a.cols() == b.rows(),
            w < WORKERS,
            idx <= n,
            idx < n ==> idx == w + WORKERS * q@.len(),
            idx >= n ==> w + WORKERS * q@.len() >= n,
            forall|t: int|
                0 <= t < q@.len() ==> {
                    &&& (#[trigger] q@[t]).index() == w + WORKERS * t
                    &&& q@[t].index() < n
                    &&& q@[t].row_vector() == row_of(*a, q@[t].index() as int / b.cols() as int)
                    &&& q@[t].col_vector() == col_of(*b, q@[t].index() as int % b.cols() as int)
                    &&& q@[t].row_vector().len() == q@[t].col_vector().len()
                },
        decreases n - idx,
    {
        let task = make_task(a, b, idx);
        q.push(task);
        if n - idx > WORKERS {
            idx = idx + WORKERS;
        } else {
            idx = n;
        }
    }
    proof {
        let len = q@.len() as int;
        if len > 0 {
            assert(q@[len - 1].index() == w + WORKERS * (len - 1));
            vstd::arithmetic::div_mod::lemma_fundamental_div_mod_converse(
                n - w - 1,
                WORKERS as int,
                len - 1,
                n - w - 1 - WORKERS * (len - 1),
            );
        }
    }
    q
}

/// A worker's loop over its queue: one reply per task, in queue order. A task
/// whose vectors differ in length stops the worker, and no reply is made for
/// it or for the tasks after it.
pub fn run_queue<T: Scalar>(queue: Vec<MsgInput<T>>) -> (r: Vec<MsgOutput<T>>)
    ensures
        r@.len() <= queue@.len(),
        forall|t: int|
            0 <= t < r@.len() ==> (#[trigger] queue@[t]).row_vector().len()
                == queue@[t].col_vector().len(),
        r@.len() < queue@.len() ==> queue@[r@.len() as int].row_vector().len()
            != queue@[r@.len() as int].col_vector().len(),
        forall|t: int|
            0 <= t < r@.len() ==> (#[trigger] r@[t]).index() == queue@[t].index() && r@[t].val()
                == dot(queue@[t].row_vector(), queue@[t].col_vector()),
{
    let ghost tasks = queue@;
    let mut rest = queue;
    let mut r: Vec<MsgOutput<T>> = Vec::new();
    while rest.len() > 0
        invariant_except_break
            r@.len() + rest@.len() == tasks.len(),
            rest@ == tasks.subrange(r@.len() as int, tasks.len() as int),
        invariant
            r@.len() <= tasks.len(),
            forall|t: int|
                0 <= t < r@.len() ==> (#[trigger] tasks[t]).row_vector().len()
                    == tasks[t].col_vector().len(),
            forall|t: int|
                0 <= t < r@.len() ==> (#[trigger] r@[t]).index() == tasks[t].index() && r@[t].val()
                    == dot(tasks[t].row_vector(), tasks[t].col_vector()),
        ensures
            r@.len() <= tasks.len(),
            r@.len() < tasks.len() ==> tasks[r@.len() as int].row_vector().len()
                != tasks[r@.len() as int].col_vector().len(),
            forall|t: int|
                0 <= t < r@.len() ==> (#[trigger] tasks[t]).row_vector().len()
                    == tasks[t].col_vector().len(),
            forall|t: int|
                0 <= t < r@.len() ==> (#[trigger] r@[t]).index() == tasks[t].index() && r@[t].val()
                    == dot(tasks[t].row_vector(), tasks[t].col_vector()),
        decreases rest@.len(),
    {
        let task = rest.remove(0);
        proof {
            assert(task == tasks[r@.len() as int]);
            assert(rest@ =~= tasks.subrange(r@.len() as int + 1, tasks.len() as int));
        }
        match run_task(task) {
            Ok(reply) => {
                r.push(reply);
                proof {
                    assert(rest@ =~= tasks.subrange(r@.len() as int, tasks.len() as int));
                }
            },
            Err(_) => {
                break;
            },
        }
    }
    r
}

/// Every reply names a cell below `n`.
pub open spec fn replies_in_range<T: Scalar>(rs: Seq<MsgOutput<T>>, n: nat) -> bool {
    forall|j: int| 0 <= j < rs.len() ==> (#[trigger] rs[j]).index() < n
}

/// No two replies name the same cell.
pub open spec fn replies_distinct<T: Scalar>(rs: Seq<MsgOutput<T>>) -> bool {
    forall|j: int, k: int|
        0 <= j < rs.len() && 0 <= k < rs.len() && j != k ==> (#[trigger] rs[j]).index() != (
        #[trigger] rs[k]).index()
}

/// Some reply names cell `i`.
pub open spec fn reply_for<T: Scalar>(rs: Seq<MsgOutput<T>>, i: nat) -> bool {
    exists|j: int| 0 <= j < rs.len() && (#[trigger] rs[j]).index() == i
}

/// Each cell `0..n` is named by exactly one reply, and no reply names
/// another cell.
pub open spec fn written_once<T: Scalar>(rs: Seq<MsgOutput<T>>, n: nat) -> bool {
    &&& replies_in_range(rs, n)
    &&& replies_distinct(rs)
    &&& forall|i: nat| i < n ==> #[trigger] reply_for(rs, i)
}

/// The output buffer that the replies fill: cell `i` holds the value of the
/// reply for cell `i`.
pub open spec fn assembled<T: Scalar>(rs: Seq<MsgOutput<T>>, n: nat) -> Seq<T> {
    Seq::new(n, |i: int| rs[choose|j: int| 0 <= j < rs.len() && (#[trigger] rs[j]).index() == i].val())
}

/// Writes each reply's value into an output buffer of `n` cells at the
/// reply's index. The buffer is handed back only when every cell was written
/// exactly once; otherwise the whole result is dropped.
pub fn collect<T: Scalar>(replies: &Vec<MsgOutput<T>>, n: usize) -> (r: Result<Vec<T>, MatrixError>)
    ensures
        written_once(replies@, n as nat) <==> r is Ok,
        match r {
            Ok(out) => out@ == assembled(replies@, n as nat) && forall|j: int|
                0 <= j < replies@.len() ==> out@[(#[trigger] replies@[j]).index() as int]
                    == replies@[j].val(),
            Err(e) => e == MatrixError::WorkerUnavailable,
        },
{
    let mut out: Vec<T> = Vec::new();
    let mut seen: Vec<bool> = Vec::new();
    let mut i: usize = 0;
    while i < n
        invariant
            i <= n,
            out@.len() == i,
            seen@.len() == i,
            forall|c: int| 0 <= c < i ==> !(#[trigger] seen@[c]),
        decreases n - i,
    {
        out.push(T::zero());
        seen.push(false);
        i = i + 1;
    }
    let mut t: usize = 0;
    while t < replies.len()
        invariant
            t <= replies@.len(),
            out@.len() == n,
            seen@.len() == n,
            replies_in_range(replies@.subrange(0, t as int), n as nat),
            replies_distinct(replies@.subrange(0, t as int)),
            forall|c: int|
                0 <= c < n ==> (#[trigger] seen@[c] <==> exists|j: int|
                    0 <= j < t && (#[trigger] replies@[j]).index() == c),
            forall|j: int|
                0 <= j < t ==> out@[(#[trigger] replies@[j]).index() as int] == replies@[j].val(),
        decreases replies@.len() - t,
    {
        let idx = replies[t].idx();
        if idx >= n {
            proof {
                assert(!replies_in_range(replies@, n as nat)) by {
                    assert(replies@[t as int].index() >= n);
                }
            }
            return Err(MatrixError::WorkerUnavailable);
        }
        if seen[idx] {
            proof {
                let j = choose|j: int| 0 <= j < t && (#[trigger] replies@[j]).index() == idx;
                assert(replies@[j].index() == replies@[t as int].index());
            }
            return Err(MatrixError::WorkerUnavailable);
        }
        let ghost seen0 = seen@;
        let ghost out0 = out@;
        seen.set(idx, true);
        out.set(idx, replies[t].value());
        proof {
            assert forall|j: int|
                0 <= j < t + 1 implies out@[(#[trigger] replies@[j]).index() as int]
                == replies@[j].val() by {
                if j < t {
                    assert(replies@.subrange(0, t as int)[j] == replies@[j]);
                    if replies@[j].index() == idx {
                        assert(seen0[idx as int]);
                    }
                    assert(out0[replies@[j].index() as int] == replies@[j].val());
                }
            }
            let done = replies@.subrange(0, t + 1);
            assert forall|j: int, k: int|
                0 <= j < done.len() && 0 <= k < done.len() && j != k implies (#[trigger] done[j]).index()
                != (#[trigger] done[k]).index() by {
                if j < t && k < t {
                    assert(replies@.subrange(0, t as int)[j] == done[j]);
                    assert(replies@.subrange(0, t as int)[k] == done[k]);
                } else if j < t {
                    assert(replies@.subrange(0, t as int)[j] == done[j]);
                } else if k < t {
                    assert(replies@.subrange(0, t as int)[k] == done[k]);
                }
            }
            assert forall|j: int| 0 <= j < done.len() implies (#[trigger] done[j]).index() < n by {
                if j < t {
                    assert(replies@.subrange(0, t as int)[j] == done[j]);
                }
            }
            assert forall|c: int|
                0 <= c < n implies (#[trigger] seen@[c] <==> exists|j: int|
                    0 <= j < t + 1 && (#[trigger] replies@[j]).index() == c) by {
                if c == idx {
                    assert(replies@[t as int].index() == c);
                }
            }
        }
        t = t + 1;
    }
    let mut c: usize = 0;
    while c < n
        invariant
            c <= n,
            t == replies@.len(),
            out@.len() == n,
            seen@.len() == n,
            replies_in_range(replies@.subrange(0, t as int), n as nat),
            replies_distinct(replies@.subrange(0, t as int)),
            forall|c: int|
                0 <= c < n ==> (#[trigger] seen@[c] <==> exists|j: int|
                    0 <= j < t && (#[trigger] replies@[j]).index() == c),
            forall|j: int|
                0 <= j < t ==> out@[(#[trigger] replies@[j]).index() as int] == replies@[j].val(),
            forall|d: int| 0 <= d < c ==> #[trigger] seen@[d],
        decreases n - c,
    {
        if !seen[c] {
            proof {
                assert(!reply_for(replies@, c as nat)) by {
                    if reply_for(replies@, c as nat) {
                        let j = choose|j: int|
                            0 <= j < replies@.len() && (#[trigger] replies@[j]).index() == c;
                        assert(seen@[c as int]);
                    }
                }
            }
            return Err(MatrixError::WorkerUnavailable);
        }
        c = c + 1;
    }
    proof {
        assert(replies@.subrange(0, replies@.len() as int) =~= replies@);
        assert forall|i: nat| i < n implies #[trigger] reply_for(replies@, i) by {
            assert(seen@[i as int]);
        }
        assert(out@ =~= assembled(replies@, n as nat)) by {
            assert forall|i: int| 0 <= i < n implies out@[i] == assembled(replies@, n as nat)[i] by {
                assert(reply_for(replies@, i as nat));
                let j = choose|j: int| 0 <= j < replies@.len() && (#[trigger] replies@[j]).index() == i;
                assert(out@[replies@[j].index() as int] == replies@[j].val());
            }
        }
    }
    Ok(out)
}

/// Runs one pool over the product `a * b`: the task for each cell goes to
/// worker `idx % WORKERS`, each worker runs its queue, and the replies of all
/// workers are handed back together. Every cell below `a.row * b.col` gets
/// exactly one reply, holding that cell of the product.
pub fn run_pool<T: Scalar>(a: &Matrix<T>, b: &Matrix<T>) -> (r: Vec<MsgOutput<T>>)
    requires
        a.cols() == b.rows(),
        a.rows() * b.cols() <= usize::MAX,
    ensures
        written_once(r@, a.rows() * b.cols()),
        forall|j: int|
            0 <= j < r@.len() ==> (#[trigger] r@[j]).val() == product_cell(
                *a,
                *b,
                r@[j].index() as int,
            ),
{
    let n = a.row() * b.col();
    let mut replies: Vec<MsgOutput<T>> = Vec::new();
    let mut w: usize = 0;
    while w < WORKERS
        invariant
            w <= WORKERS,
            n == a.rows() * b.cols(),
            a.cols() == b.rows(),
            replies_in_range(replies@, n as nat),
            replies_distinct(replies@),
            forall|j: int|
                0 <= j < replies@.len() ==> (#[trigger] replies@[j]).index() % (WORKERS as nat) < w
                    && replies@[j].val() == product_cell(*a, *b, replies@[j].index() as int),
            forall|i: nat| i < n && i % (WORKERS as nat) < w ==> #[trigger] reply_for(replies@, i),
        decreases WORKERS - w,
    {
        let queue = plan_queue(a, b, w);
        let ghost q = queue@;
        let mut done = run_queue(queue);
        let ghost prior = replies@;
        let ghost d = done@;
        replies.append(&mut done);
        proof {
            assert(d.len() == q.len()) by {
                if d.len() < q.len() {
                    assert(q[d.len() as int].row_vector().len() == q[d.len() as int].col_vector().len());
                }
            }
            assert(replies@ =~= prior + d);
            assert forall|t: int| 0 <= t < d.len() implies {
                &&& (#[trigger] d[t]).index() == w + WORKERS * t
                &&& d[t].index() < n
                &&& d[t].val() == product_cell(*a, *b, d[t].index() as int)
            } by {
                assert(q[t].index() == w + WORKERS * t);
            }
            assert forall|j: int| 0 <= j < replies@.len() implies (#[trigger] replies@[j]).index() < n by {
                if j >= prior.len() {
                    assert(replies@[j] == d[j - prior.len()]);
                } else {
                    assert(replies@[j] == prior[j]);
                }
            }
            assert forall|j: int|
                0 <= j < replies@.len() implies (#[trigger] replies@[j]).index() % (WORKERS as nat) < w + 1
                && replies@[j].val() == product_cell(*a, *b, replies@[j].index() as int) by {
                if j >= prior.len() {
                    assert(replies@[j] == d[j - prior.len()]);
                } else {
                    assert(replies@[j] == prior[j]);
                }
            }
            assert forall|j: int, k: int|
                0 <= j < replies@.len() && 0 <= k < replies@.len() && j != k implies (
                #[trigger] replies@[j]).index() != (#[trigger] replies@[k]).index() by {
                if j >= prior.len() {
                    assert(replies@[j] == d[j - prior.len()]);
                } else {
                    assert(replies@[j] == prior[j]);
                }
                if k >= prior.len() {
                    assert(replies@[k] == d[k - prior.len()]);
                } else {
                    assert(replies@[k] == prior[k]);
                }
            }
            assert forall|i: nat| i < n && i % (WORKERS as nat) < w + 1 implies #[trigger] reply_for(
                replies@,
                i,
            ) by {
                if i % (WORKERS as nat) < w {
                    assert(reply_for(prior, i));
                    let j = choose|j: int| 0 <= j < prior.len() && (#[trigger] prior[j]).index() == i;
                    assert(replies@[j] == prior[j]);
                } else {
                    let t = i as int / WORKERS as int;
                    assert(i == w + WORKERS * t);
                    assert(t < d.len());
                    assert(replies@[prior.len() + t] == d[t]);
                }
            }
        }
        w = w + 1;
    }
    proof {
        assert forall|i: nat| i < n implies #[trigger] reply_for(replies@, i) by {
            assert(i % (WORKERS as nat) < w);
        }
    }
    replies
}

/// Whatever order the replies arrive in, once each cell has exactly one reply
/// holding that cell of the product, the assembled buffer is the product.
pub proof fn lemma_any_order_gives_product<T: Scalar>(
    a: Matrix<T>,
    b: Matrix<T>,
    rs: Seq<MsgOutput<T>>,
)
    requires
        written_once(rs, a.rows() * b.cols()),
        forall|j: int|
            0 <= j < rs.len() ==> (#[trigger] rs[j]).val() == product_cell(a, b, rs[j].index() as int),
    ensures
        assembled(rs, a.rows() * b.cols()) == product_cells(a, b),
{
    let n = a.rows() * b.cols();
    assert(assembled(rs, n) =~= product_cells(a, b)) by {
        assert forall|i: int| 0 <= i < n implies assembled(rs, n)[i] == product_cells(a, b)[i] by {
            assert(reply_for(rs, i as nat));
        }
    }
}

/// The product `a * b`: one pool runs a task per output cell, and the replies
/// are assembled by cell. Operands whose shapes do not fit are refused before
/// any task is made.
pub fn multiply<T: Scalar>(a: &Matrix<T>, b: &Matrix<T>) -> (r: Result<Matrix<T>, MatrixError>)
    requires
        a.cols() == b.rows() ==> a.rows() * b.cols() <= usize::MAX,
    ensures
        a.cols() != b.rows() <==> r == Err::<Matrix<T>, MatrixError>(MatrixError::ShapeMismatch),
        a.cols() == b.rows() ==> match r {
            Ok(c) => c.rows() == a.rows() && c.cols() == b.cols() && c.cells() == product_cells(
                *a,
                *b,
            ),
            Err(_) => false,
        },
{
    if a.col() != b.row() {
        return Err(MatrixError::ShapeMismatch);
    }
    let n = a.row() * b.col();
    let replies = run_pool(a, b);
    match collect(&replies, n) {
        Ok(out) => {
            proof {
                lemma_any_order_gives_product(*a, *b, replies@);
            }
            Ok(Matrix::new(out, a.row(), b.col()))
        },
        Err(e) => Err(e),
    }
}

impl<T: Scalar> Matrix<T> {
    /// The product `self * rhs`, for operands whose shapes fit.
    pub fn mul(self, rhs: Self) -> (r: Self)
        requires
            self.cols() == rhs.rows(),
            self.rows() * rhs.cols() <= usize::MAX,
        ensures
            r.rows() == self.rows(),
            r.cols() == rhs.cols(),
            r.cells() == product_cells(self, rhs),
    {
        match multiply(&self, &rhs) {
            Ok(c) => c,
            Err(_) => {
                proof {
                    assert(false);
                }
                Matrix::new(Vec::new(), 0, 0)
            },
        }
    }
}

/// `a[i][0] * b[0][j] + ... + a[i][k - 1] * b[k - 1][j]`, accumulated from
/// zero in that order, as the textbook triple loop does.
pub open spec fn naive_sum<T: Scalar>(a: Matrix<T>, b: Matrix<T>, i: int, j: int, k: nat) -> T
    decreases k,
{
    if k == 0 {
        T::zero_spec()
    } else {
        naive_sum(a, b, i, j, (k - 1) as nat).plus_spec(
            a.cell(i, k - 1).times_spec(b.cell(k - 1, j)),
        )
    }
}

proof fn lemma_prefix_is_naive<T: Scalar>(a: Matrix<T>, b: Matrix<T>, i: int, j: int, k: nat)
    requires
        a.cols() == b.rows(),
        a.cells().len() == a.rows() * a.cols(),
        b.cells().len() == b.rows() * b.cols(),
        0 <= i < a.rows(),
        0 <= j < b.cols(),
        k <= a.cols(),
    ensures
        dot_prefix(row_of(a, i), col_of(b, j), k) == naive_sum(a, b, i, j, k),
    decreases k,
{
    if k > 0 {
        lemma_prefix_is_naive(a, b, i, j, (k - 1) as nat);
        lemma_row_in_bounds(i, a.rows() as int, a.cols() as int);
        assert(row_of(a, i)[k - 1] == a.cell(i, k - 1));
        assert(col_of(b, j)[k - 1] == b.cell(k - 1, j));
    }
}

/// Each cell of the product that `multiply` returns is the textbook triple
/// loop's: cell `(i, j)` accumulates `a[i][k] * b[k][j]` for `k` from 0 up
/// to the inner dimension, starting from zero.
pub proof fn lemma_product_is_naive<T: Scalar>(a: Matrix<T>, b: Matrix<T>, i: int, j: int)
    requires
        a.cols() == b.rows(),
        a.cells().len() == a.rows() * a.cols(),
        b.cells().len() == b.rows() * b.cols(),
        0 <= i < a.rows(),
        0 <= j < b.cols(),
    ensures
        0 <= i * b.cols() + j < product_cells(a, b).len(),
        product_cells(a, b)[i * b.cols() + j] == naive_sum(a, b, i, j, a.cols()),
{
    let c = b.cols() as int;
    lemma_cell_in_bounds(i, j, a.rows() as int, c);
    vstd::arithmetic::div_mod::lemma_fundamental_div_mod_converse(i * c + j, c, i, j);
    lemma_row_in_bounds(i, a.rows() as int, a.cols() as int);
    lemma_prefix_is_naive(a, b, i, j, a.cols());
    assert(row_of(a, i).len() == a.cols());
}

/// Some position of `perm` holds `j`.
pub open spec fn hits(perm: Seq<int>, j: int) -> bool {
    exists|k: int| 0 <= k < perm.len() && #[trigger] perm[k] == j
}

/// Assembling replies does not depend on the order in which they arrive: when
/// `r2` holds the replies of `r1` in another order (`r2[k] == r1[perm[k]]`
/// for a permutation `perm`), either both write every cell exactly once or
/// neither does, and then both fill the same buffer.
pub proof fn lemma_collect_any_order<T: Scalar>(
    r1: Seq<MsgOutput<T>>,
    r2: Seq<MsgOutput<T>>,
    perm: Seq<int>,
    n: nat,
)
    requires
        r1.len() == r2.len(),
        perm.len() == r1.len(),
        forall|k: int| 0 <= k < perm.len() ==> 0 <= #[trigger] perm[k] < r1.len(),
        forall|k: int| 0 <= k < perm.len() ==> #[trigger] r2[k] == r1[perm[k]],
        forall|k: int, l: int|
            0 <= k < perm.len() && 0 <= l < perm.len() && k != l ==> #[trigger] perm[k]
                != #[trigger] perm[l],
        forall|j: int| 0 <= j < r1.len() ==> #[trigger] hits(perm, j),
    ensures
        written_once(r1, n) <==> written_once(r2, n),
        written_once(r1, n) ==> assembled(r1, n) == assembled(r2, n),
{
    assert(replies_in_range(r1, n) ==> replies_in_range(r2, n)) by {
        if replies_in_range(r1, n) {
            assert forall|k: int| 0 <= k < r2.len() implies (#[trigger] r2[k]).index() < n by {
                assert(r1[perm[k]].index() < n);
            }
        }
    }
    assert(replies_in_range(r2, n) ==> replies_in_range(r1, n)) by {
        if replies_in_range(r2, n) {
            assert forall|j: int| 0 <= j < r1.len() implies (#[trigger] r1[j]).index() < n by {
                assert(hits(perm, j));
                let k = choose|k: int| 0 <= k < perm.len() && #[trigger] perm[k] == j;
                assert(r2[k].index() < n);
            }
        }
    }
    assert(replies_distinct(r1) ==> replies_distinct(r2)) by {
        if replies_distinct(r1) {
            assert forall|k: int, l: int|
                0 <= k < r2.len() && 0 <= l < r2.len() && k != l implies (#[trigger] r2[k]).index()
                != (#[trigger] r2[l]).index() by {
                assert(perm[k] != perm[l]);
                assert(r1[perm[k]].index() != r1[perm[l]].index());
            }
        }
    }
    assert(replies_distinct(r2) ==> replies_distinct(r1)) by {
        if replies_distinct(r2) {
            assert forall|j1: int, j2: int|
                0 <= j1 < r1.len() && 0 <= j2 < r1.len() && j1 != j2 implies (
                #[trigger] r1[j1]).index() != (#[trigger] r1[j2]).index() by {
                assert(hits(perm, j1));
                assert(hits(perm, j2));
                let k1 = choose|k: int| 0 <= k < perm.len() && #[trigger] perm[k] == j1;
                let k2 = choose|k: int| 0 <= k < perm.len() && #[trigger] perm[k] == j2;
                assert(r2[k1].index() != r2[k2].index());
            }
        }
    }
    assert forall|i: nat| #![trigger reply_for(r1, i)] #![trigger reply_for(r2, i)]
        reply_for(r1, i) <==> reply_for(r2, i) by {
        if reply_for(r1, i) {
            let j = choose|j: int| 0 <= j < r1.len() && (#[trigger] r1[j]).index() == i;
            assert(hits(perm, j));
            let k = choose|k: int| 0 <= k < perm.len() && #[trigger] perm[k] == j;
            assert(r2[k].index() == i);
        }
        if reply_for(r2, i) {
            let k = choose|k: int| 0 <= k < r2.len() && (#[trigger] r2[k]).index() == i;
            assert(r1[perm[k]].index() == i);
        }
    }
    if written_once(r1, n) {
        assert(assembled(r1, n) =~= assembled(r2, n)) by {
            assert forall|i: int| 0 <= i < n implies assembled(r1, n)[i] == assembled(r2, n)[i] by {
                assert(reply_for(r1, i as nat));
                assert(reply_for(r2, i as nat));
                let j = choose|j: int| 0 <= j < r1.len() && (#[trigger] r1[j]).index() == i;
                let k = choose|k: int| 0 <= k < r2.len() && (#[trigger] r2[k]).index() == i;
                assert(r1[perm[k]].index() == i);
                assert(perm[k] == j);
            }
        }
    }
}

} // verus!
