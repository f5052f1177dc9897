//! The multiply-accumulate engine: every cell of the product is a running
//! sum over the contraction dimension, and the rows of the product are
//! computed independently of each other.
//!
//! Values are single-precision bit patterns. What it means to add a product
//! to a running sum is the caller's `step` callback; the engine fixes which
//! operands reach it and in which order.

use vstd::prelude::*;
use rayon::iter::IndexedParallelIterator;
use rayon::iter::ParallelIterator;
use rayon::slice::ParallelSliceMut;

verus! {

/// Row `i` of a row-major matrix with `k` columns.
pub open spec fn row(a: Seq<u32>, k: int, i: int) -> Seq<u32> {
    a.subrange(i * k, (i + 1) * k)
}

/// Column `j` of a row-major matrix with `k` rows and `n` columns.
pub open spec fn column(b: Seq<u32>, n: int, k: int, j: int) -> Seq<u32> {
    Seq::new(k as nat, |p: int| b[p * n + j])
}

/// Whether `step` may be called on every triple of patterns.
pub open spec fn accepts_all<S: Fn(u32, u32, u32) -> u32>(step: S) -> bool {
    forall|acc: u32, x: u32, y: u32| #[trigger] step.requires((acc, x, y))
}

/// Whether `acc` can come out of the running sum over the pairs of `xs` and
/// `ys`: starting from the all-zero pattern, `step` takes the sum so far and
/// the next pair, first pair first.
pub open spec fn dot_outcome<S: Fn(u32, u32, u32) -> u32>(
    step: S,
    xs: Seq<u32>,
    ys: Seq<u32>,
    acc: u32,
) -> bool
    decreases xs.len(),
{
    if xs.len() == 0 {
        acc == 0
    } else {
        exists|prev: u32|
            dot_outcome(step, xs.drop_last(), ys.drop_last(), prev) && #[trigger] step.ensures(
                (prev, xs.last(), ys.last()),
                acc,
            )
    }
}

/// Whether `cells` can be row `i` of the product of `a`, with `k` columns, and
/// `b`, with `k` rows and `n` columns.
pub open spec fn row_outcome<S: Fn(u32, u32, u32) -> u32>(
    step: S,
    a: Seq<u32>,
    b: Seq<u32>,
    i: int,
    n: int,
    k: int,
    cells: Seq<u32>,
) -> bool {
    &&& cells.len() == n
    &&& forall|j: int|
        0 <= j < n ==> dot_outcome(step, row(a, k, i), #[trigger] column(b, n, k, j), cells[j])
}

/// Whether `c` can be the row-major product of the `m` by `k` matrix `a` and
/// the `k` by `n` matrix `b`: cell `(i, j)` is a running sum over row `i` of
/// `a` and column `j` of `b`.
pub open spec fn product_outcome<S: Fn(u32, u32, u32) -> u32>(
    step: S,
    a: Seq<u32>,
    b: Seq<u32>,
    m: int,
    n: int,
    k: int,
    c: Seq<u32>,
) -> bool {
    &&& c.len() == m * n
    &&& forall|i: int, j: int|
        0 <= i < m && 0 <= j < n ==> dot_outcome(
            step,
            #[trigger] row(a, k, i),
            #[trigger] column(b, n, k, j),
            c[i * n + j],
        )
}

/// Cell `(p, j)` of a matrix with `k` rows and `n` columns lies inside it.
proof fn lemma_cell_in_bounds(p: int, j: int, k: int, n: int)
    requires
        0 <= p < k,
        0 <= j < n,
    ensures
        0 <= p * n + j < k * n,
        (p + 1) * n <= k * n,
        p * n + n == (p + 1) * n,
{
    assert(p * n + n == (p + 1) * n) by (nonlinear_arith);
    assert((p + 1) * n <= k * n) by (nonlinear_arith)
        requires
            p + 1 <= k,
            0 <= n,
    ;
    assert(0 <= p * n) by (nonlinear_arith)
        requires
            0 <= p,
            0 <= n,
    ;
}

/// Adds pair `p` of a row of `a` and column `j` of `b` to a running sum over
/// the pairs before it.
fn accumulate<S: Fn(u32, u32, u32) -> u32>(
    acc: u32,
    xs: &[u32],
    b: &[u32],
    n: usize,
    j: usize,
    p: usize,
    step: &S,
) -> (next: u32)
    requires
        p < xs@.len(),
        b@.len() == xs@.len() * n,
        j < n,
        accepts_all(*step),
        dot_outcome(
            *step,
            xs@.take(p as int),
            column(b@, n as int, xs@.len() as int, j as int).take(p as int),
            acc,
        ),
    ensures
        dot_outcome(
            *step,
            xs@.take(p + 1),
            column(b@, n as int, xs@.len() as int, j as int).take(p + 1),
            next,
        ),
{
    proof {
        lemma_cell_in_bounds(p as int, j as int, xs@.len() as int, n as int);
        assert(b@.len() == b.len());
    }
    let x: u32 = xs[p];
    let y: u32 = b[p * n + j];
    let next: u32 = step(acc, x, y);
    proof {
        let ys = column(b@, n as int, xs@.len() as int, j as int);
        let xs1 = xs@.take(p + 1);
        let ys1 = ys.take(p + 1);
        assert(xs1.drop_last() == xs@.take(p as int));
        assert(ys1.drop_last() == ys.take(p as int));
        assert(xs1.last() == x && ys1.last() == y);
        assert(step.ensures((acc, xs1.last(), ys1.last()), next));
    }
    next
}

/// One cell of the product: the running sum over a row of `a` and column `j`
/// of `b`, taken eight pairs at a time as long as eight are left and one by
/// one after that.
pub fn dot<S: Fn(u32, u32, u32) -> u32>(
    xs: &[u32],
    b: &[u32],
    n: usize,
    j: usize,
    step: &S,
) -> (acc: u32)
    requires
        b@.len() == xs@.len() * n,
        j < n,
        accepts_all(*step),
    ensures
        dot_outcome(*step, xs@, column(b@, n as int, xs@.len() as int, j as int), acc),
{
    let k: usize = xs.len();
    let ghost ys = column(b@, n as int, k as int, j as int);
    let mut acc: u32 = 0;
    let mut p: usize = 0;
    while k - p >= 8
        invariant
            k == xs@.len(),
            b@.len() == k * n,
            j < n,
            accepts_all(*step),
            ys == column(b@, n as int, k as int, j as int),
            p <= k,
            dot_outcome(*step, xs@.take(p as int), ys.take(p as int), acc),
        decreases k - p,
    {
        acc = accumulate(acc, xs, b, n, j, p, step);
        acc = accumulate(acc, xs, b, n, j, p + 1, step);
        acc = accumulate(acc, xs, b, n, j, p + 2, step);
        acc = accumulate(acc, xs, b, n, j, p + 3, step);
        acc = accumulate(acc, xs, b, n, j, p + 4, step);
        acc = accumulate(acc, xs, b, n, j, p + 5, step);
        acc = accumulate(acc, xs, b, n, j, p + 6, step);
        acc = accumulate(acc, xs, b, n, j, p + 7, step);
        p += 8;
    }
    while p < k
        invariant
            k == xs@.len(),
            b@.len() == k * n,
            j < n,
            accepts_all(*step),
            ys == column(b@, n as int, k as int, j as int),
            p <= k,
            dot_outcome(*step, xs@.take(p as int), ys.take(p as int), acc),
        decreases k - p,
    {
        acc = accumulate(acc, xs, b, n, j, p, step);
        p += 1;
    }
    assert(xs@.take(k as int) == xs@ && ys.take(k as int) == ys);
    acc
}

/// Row `i` of the product, written over `cells`.
pub fn fill_row<S: Fn(u32, u32, u32) -> u32>(
    cells: &mut [u32],
    a: &[u32],
    b: &[u32],
    i: usize,
    n: usize,
    k: usize,
    step: &S,
)
    requires
        old(cells)@.len() == n,
        (i + 1) * k <= a@.len(),
        b@.len() == k * n,
        accepts_all(*step),
    ensures
        row_outcome(*step, a@, b@, i as int, n as int, k as int, final(cells)@),
{
    proof {
        assert(i * k + k == (i + 1) * k) by (nonlinear_arith);
        assert(i * k >= 0) by (nonlinear_arith);
        assert(a@.len() == a.len());
    }
    let start: usize = i * k;
    let xs: &[u32] = &a[start..start + k];
    let mut j: usize = 0;
    while j < n
        invariant
            cells@.len() == n,
            xs@ == row(a@, k as int, i as int),
            xs@.len() == k,
            b@.len() == k * n,
            accepts_all(*step),
            j <= n,
            forall|t: int|
                0 <= t < j ==> dot_outcome(
                    *step,
                    xs@,
                    #[trigger] column(b@, n as int, k as int, t),
                    cells@[t],
                ),
        decreases n - j,
    {
        let acc: u32 = dot(xs, b, n, j, step);
        cells[j] = acc;
        j += 1;
    }
}

/// Hands the rows of `c` to rayon. `par_chunks_mut` cuts `c` into
/// consecutive rows of `n` cells that do not overlap, and panics on a row
/// length of zero, which `n > 0` keeps out; `enumerate` numbers the rows from
/// zero; `for_each` runs `fill_row` once on every numbered row, on whichever
/// worker is free, and returns when all are done.
///
/// Believed, not proved: each row then holds what `fill_row` promises for its
/// number, and `c` keeps its length.
#[verifier::external_body]
fn fill_rows<S: Fn(u32, u32, u32) -> u32 + Sync>(
    c: &mut Vec<u32>,
    a: &[u32],
    b: &[u32],
    m: usize,
    n: usize,
    k: usize,
    step: &S,
)
    requires
        n > 0,
        old(c)@.len() == m * n,
        a@.len() == m * k,
        b@.len() == k * n,
        accepts_all(*step),
    ensures
        final(c)@.len() == old(c)@.len(),
        forall|i: int|
            0 <= i < m ==> row_outcome(
                *step,
                a@,
                b@,
                i,
                n as int,
                k as int,
                #[trigger] final(c)@.subrange(i * n, (i + 1) * n),
            ),
{
    c.par_chunks_mut(n).enumerate().for_each(|(i, cells)| fill_row(cells, a, b, i, n, k, step));
}

/// The product of the `m` by `k` matrix `a` and the `k` by `n` matrix `b`,
/// built in `c`, which comes in empty.
pub fn multiply<S: Fn(u32, u32, u32) -> u32 + Sync>(
    c: Vec<u32>,
    a: &[u32],
    b: &[u32],
    m: usize,
    n: usize,
    k: usize,
    step: &S,
) -> (product: Vec<u32>)
    requires
        c@.len() == 0,
        m * n <= usize::MAX,
        a@.len() == m * k,
        b@.len() == k * n,
        accepts_all(*step),
    ensures
        product_outcome(*step, a@, b@, m as int, n as int, k as int, product@),
{
    let mut c = c;
    let cells: usize = m * n;
    let mut t: usize = 0;
    while t < cells
        invariant
            t <= cells,
            c@.len() == t,
        decreases cells - t,
    {
        c.push(0);
        t += 1;
    }
    if n > 0 {
        fill_rows(&mut c, a, b, m, n, k, step);
        proof {
            assert forall|i: int, j: int| 0 <= i < m && 0 <= j < n implies dot_outcome(
                *step,
                #[trigger] row(a@, k as int, i),
                #[trigger] column(b@, n as int, k as int, j),
                c@[i * n + j],
            ) by {
                lemma_cell_in_bounds(i, j, m as int, n as int);
                let cells_i = c@.subrange(i * n, (i + 1) * n);
                assert(row_outcome(*step, a@, b@, i, n as int, k as int, cells_i));
                assert(cells_i[j] == c@[i * n + j]);
            }
        }
    }
    c
}

} // verus!
