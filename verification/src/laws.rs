//! What holds of every multiplication, whatever arithmetic it is given, and
//! what holds in addition of arithmetic that behaves as IEEE-754 does on the
//! values in question.

use vstd::prelude::*;
use crate::codec::{bytes_of, halves_of, join_bytes};
use crate::codec::{lemma_read_after_write, lemma_write_after_read};
use crate::convert::maps_each;
use crate::engine::{column, dot_outcome, product_outcome, row};
use crate::gemm::{gemm_outcome, stages};
use crate::shape::shape_matches;

verus! {

/// Whether `f` returns at most one value for each argument.
pub open spec fn is_function_1<A, B, F: Fn(A) -> B>(f: F) -> bool {
    forall|x: A, y1: B, y2: B|
        #[trigger] f.ensures((x,), y1) && #[trigger] f.ensures((x,), y2) ==> y1 == y2
}

/// Whether `step` returns at most one value for each triple of arguments.
pub open spec fn is_function_3<S: Fn(u32, u32, u32) -> u32>(step: S) -> bool {
    forall|acc: u32, x: u32, y: u32, r1: u32, r2: u32|
        #[trigger] step.ensures((acc, x, y), r1) && #[trigger] step.ensures((acc, x, y), r2) ==> r1
            == r2
}

/// Under a `step` that is a function, a running sum has one outcome.
pub proof fn lemma_dot_is_determined<S: Fn(u32, u32, u32) -> u32>(
    step: S,
    xs: Seq<u32>,
    ys: Seq<u32>,
    acc1: u32,
    acc2: u32,
)
    requires
        is_function_3(step),
        dot_outcome(step, xs, ys, acc1),
        dot_outcome(step, xs, ys, acc2),
    ensures
        acc1 == acc2,
    decreases xs.len(),
{
    if xs.len() > 0 {
        let prev1 = choose|prev: u32|
            dot_outcome(step, xs.drop_last(), ys.drop_last(), prev) && #[trigger] step.ensures(
                (prev, xs.last(), ys.last()),
                acc1,
            );
        let prev2 = choose|prev: u32|
            dot_outcome(step, xs.drop_last(), ys.drop_last(), prev) && #[trigger] step.ensures(
                (prev, xs.last(), ys.last()),
                acc2,
            );
        lemma_dot_is_determined(step, xs.drop_last(), ys.drop_last(), prev1, prev2);
    }
}

/// Under an `f` that is a function, an element-wise conversion has one
/// outcome.
pub proof fn lemma_conversion_is_determined<A, B, F: Fn(A) -> B>(
    f: F,
    xs: Seq<A>,
    ys1: Seq<B>,
    ys2: Seq<B>,
)
    requires
        is_function_1(f),
        maps_each(f, xs, ys1),
        maps_each(f, xs, ys2),
    ensures
        ys1 == ys2,
{
    assert forall|t: int| 0 <= t < xs.len() implies ys1[t] == ys2[t] by {
        assert(f.ensures((xs[t],), ys1[t]) && f.ensures((xs[t],), ys2[t]));
    }
    assert(ys1 =~= ys2);
}

/// Row `t / n`, column `t % n` is where cell `t` of a row-major matrix with
/// `n` columns lies.
proof fn lemma_cell_position(t: int, m: int, n: int)
    requires
        0 <= t < m * n,
        0 <= m,
        0 <= n,
    ensures
        n > 0,
        0 <= t / n < m,
        0 <= t % n < n,
        (t / n) * n + t % n == t,
{
    assert(n > 0) by (nonlinear_arith)
        requires
            0 <= t < m * n,
            0 <= n,
    ;
    vstd::arithmetic::div_mod::lemma_fundamental_div_mod(t, n);
    vstd::arithmetic::div_mod::lemma_mod_bound(t, n);
    vstd::arithmetic::div_mod::lemma_div_pos_is_pos(t, n);
    assert(n * (t / n) == (t / n) * n) by (nonlinear_arith);
    assert(t / n < m) by (nonlinear_arith)
        requires
            (t / n) * n + t % n == t,
            0 <= t % n,
            t < m * n,
            n > 0,
    ;
}

/// Under a `step` that is a function, a product has one outcome.
pub proof fn lemma_product_is_determined<S: Fn(u32, u32, u32) -> u32>(
    step: S,
    a: Seq<u32>,
    b: Seq<u32>,
    m: int,
    n: int,
    k: int,
    c1: Seq<u32>,
    c2: Seq<u32>,
)
    requires
        0 <= m,
        0 <= n,
        is_function_3(step),
        product_outcome(step, a, b, m, n, k, c1),
        product_outcome(step, a, b, m, n, k, c2),
    ensures
        c1 == c2,
{
    assert forall|t: int| 0 <= t < c1.len() implies c1[t] == c2[t] by {
        lemma_cell_position(t, m, n);
        let i = t / n;
        let j = t % n;
        let xs = row(a, k, i);
        let ys = column(b, n, k, j);
        assert(dot_outcome(step, xs, ys, c1[i * n + j]));
        assert(dot_outcome(step, xs, ys, c2[i * n + j]));
        lemma_dot_is_determined(step, xs, ys, c1[t], c2[t]);
    }
    assert(c1 =~= c2);
}

/// Under arithmetic that is a function in each of its three parts, the
/// operands and the shape determine the result.
pub proof fn lemma_result_is_determined<
    W: Fn(u16) -> u32,
    S: Fn(u32, u32, u32) -> u32,
    N: Fn(u32) -> u16,
>(
    widen: W,
    step: S,
    narrow: N,
    a: Seq<u8>,
    b: Seq<u8>,
    m: int,
    n: int,
    k: int,
    out1: Seq<u8>,
    out2: Seq<u8>,
)
    requires
        0 <= m,
        0 <= n,
        is_function_1(widen),
        is_function_3(step),
        is_function_1(narrow),
        gemm_outcome(widen, step, narrow, a, b, m, n, k, out1),
        gemm_outcome(widen, step, narrow, a, b, m, n, k, out2),
    ensures
        out1 == out2,
{
    let (av1, bv1, cv1, ch1) = choose|av: Seq<u32>, bv: Seq<u32>, cv: Seq<u32>, ch: Seq<u16>| #[trigger]
        stages(widen, step, narrow, a, b, m, n, k, av, bv, cv, ch, out1);
    let (av2, bv2, cv2, ch2) = choose|av: Seq<u32>, bv: Seq<u32>, cv: Seq<u32>, ch: Seq<u16>| #[trigger]
        stages(widen, step, narrow, a, b, m, n, k, av, bv, cv, ch, out2);
    lemma_conversion_is_determined(widen, halves_of(a), av1, av2);
    lemma_conversion_is_determined(widen, halves_of(b), bv1, bv2);
    lemma_product_is_determined(step, av1, bv1, m, n, k, cv1, cv2);
    lemma_conversion_is_determined(narrow, cv1, ch1, ch2);
}

/// With nothing to sum over, every cell of a product is the all-zero
/// pattern, which is positive zero.
pub proof fn lemma_empty_contraction_is_zero<S: Fn(u32, u32, u32) -> u32>(
    step: S,
    a: Seq<u32>,
    b: Seq<u32>,
    m: int,
    n: int,
    c: Seq<u32>,
)
    requires
        0 <= m,
        0 <= n,
        product_outcome(step, a, b, m, n, 0, c),
    ensures
        c.len() == m * n,
        forall|t: int| 0 <= t < c.len() ==> c[t] == 0,
{
    assert forall|t: int| 0 <= t < c.len() implies c[t] == 0 by {
        lemma_cell_position(t, m, n);
        let i = t / n;
        let j = t % n;
        assert(dot_outcome(step, row(a, 0, i), column(b, n, 0, j), c[i * n + j]));
        assert(row(a, 0, i).len() == 0);
    }
}

/// With nothing to sum over, every half of the result is what narrowing
/// gives for positive zero.
pub proof fn lemma_empty_contraction_narrows_zero<
    W: Fn(u16) -> u32,
    S: Fn(u32, u32, u32) -> u32,
    N: Fn(u32) -> u16,
>(widen: W, step: S, narrow: N, a: Seq<u8>, b: Seq<u8>, m: int, n: int, out: Seq<u8>)
    requires
        0 <= m,
        0 <= n,
        gemm_outcome(widen, step, narrow, a, b, m, n, 0, out),
    ensures
        out.len() == 2 * (m * n),
        forall|t: int|
            0 <= t < m * n ==> narrow.ensures((0u32,), #[trigger] halves_of(out)[t]),
{
    let (av, bv, cv, ch) = choose|av: Seq<u32>, bv: Seq<u32>, cv: Seq<u32>, ch: Seq<u16>| #[trigger]
        stages(widen, step, narrow, a, b, m, n, 0, av, bv, cv, ch, out);
    lemma_empty_contraction_is_zero(step, av, bv, m, n, cv);
    lemma_read_after_write(ch);
    assert forall|t: int| 0 <= t < m * n implies narrow.ensures(
        (0u32,),
        #[trigger] halves_of(out)[t],
    ) by {
        assert(narrow.ensures((cv[t],), ch[t]));
    }
}

/// Whether every element of `s` is zero.
pub open spec fn all_zero<T: Integer>(s: Seq<T>) -> bool {
    forall|t: int| 0 <= t < s.len() ==> (#[trigger] s[t]) as int == 0
}

/// A running sum over zeros is zero, under a `step` that leaves a zero sum
/// at zero when the product added to it is that of two zeros.
pub proof fn lemma_dot_of_zeros<S: Fn(u32, u32, u32) -> u32>(
    step: S,
    xs: Seq<u32>,
    ys: Seq<u32>,
    acc: u32,
)
    requires
        forall|r: u32| #[trigger] step.ensures((0u32, 0u32, 0u32), r) ==> r == 0,
        xs.len() == ys.len(),
        all_zero(xs),
        all_zero(ys),
        dot_outcome(step, xs, ys, acc),
    ensures
        acc == 0,
    decreases xs.len(),
{
    if xs.len() > 0 {
        let prev = choose|prev: u32|
            dot_outcome(step, xs.drop_last(), ys.drop_last(), prev) && #[trigger] step.ensures(
                (prev, xs.last(), ys.last()),
                acc,
            );
        lemma_dot_of_zeros(step, xs.drop_last(), ys.drop_last(), prev);
        assert(xs.last() == 0 && ys.last() == 0);
    }
}

/// Operands filled with zero bytes give a result filled with zero bytes,
/// under arithmetic that keeps zero at zero: widening positive zero gives
/// positive zero, adding the product of two zeros to zero gives zero, and
/// narrowing zero gives zero.
pub proof fn lemma_zero_operands_give_zero_result<
    W: Fn(u16) -> u32,
    S: Fn(u32, u32, u32) -> u32,
    N: Fn(u32) -> u16,
>(
    widen: W,
    step: S,
    narrow: N,
    a: Seq<u8>,
    b: Seq<u8>,
    m: int,
    n: int,
    k: int,
    out: Seq<u8>,
)
    requires
        0 <= m,
        0 <= n,
        0 <= k,
        shape_matches(a.len() as int, b.len() as int, m, n, k),
        all_zero(a),
        all_zero(b),
        forall|r: u32| #[trigger] widen.ensures((0u16,), r) ==> r == 0,
        forall|r: u32| #[trigger] step.ensures((0u32, 0u32, 0u32), r) ==> r == 0,
        forall|r: u16| #[trigger] narrow.ensures((0u32,), r) ==> r == 0,
        gemm_outcome(widen, step, narrow, a, b, m, n, k, out),
    ensures
        out.len() == 2 * (m * n),
        all_zero(out),
{
    let (av, bv, cv, ch) = choose|av: Seq<u32>, bv: Seq<u32>, cv: Seq<u32>, ch: Seq<u16>| #[trigger]
        stages(widen, step, narrow, a, b, m, n, k, av, bv, cv, ch, out);
    assert(all_zero(av)) by {
        assert forall|t: int| 0 <= t < av.len() implies av[t] == 0 by {
            assert(halves_of(a)[t] == join_bytes(a[2 * t], a[2 * t + 1]));
            assert(widen.ensures((halves_of(a)[t],), av[t]));
        }
    }
    assert(all_zero(bv)) by {
        assert forall|t: int| 0 <= t < bv.len() implies bv[t] == 0 by {
            assert(halves_of(b)[t] == join_bytes(b[2 * t], b[2 * t + 1]));
            assert(widen.ensures((halves_of(b)[t],), bv[t]));
        }
    }
    assert(av.len() == m * k && bv.len() == k * n) by {
        assert(a.len() == m * k * 2 && b.len() == k * n * 2);
    }
    assert(all_zero(cv)) by {
        assert forall|t: int| 0 <= t < cv.len() implies cv[t] == 0 by {
            lemma_cell_position(t, m, n);
            let i = t / n;
            let j = t % n;
            let xs = row(av, k, i);
            let ys = column(bv, n, k, j);
            assert(dot_outcome(step, xs, ys, cv[i * n + j]));
            assert(i * k + k == (i + 1) * k) by (nonlinear_arith);
            assert(0 <= i * k && (i + 1) * k <= m * k) by (nonlinear_arith)
                requires
                    0 <= i < m,
                    0 <= k,
            ;
            assert(xs.len() == k);
            assert(all_zero(xs));
            assert(all_zero(ys)) by {
                assert forall|p: int| 0 <= p < k implies ys[p] == 0 by {
                    assert(0 <= p * n + j < k * n) by (nonlinear_arith)
                        requires
                            0 <= p < k,
                            0 <= j < n,
                    ;
                }
            }
            lemma_dot_of_zeros(step, xs, ys, cv[t]);
        }
    }
    assert(all_zero(ch)) by {
        assert forall|t: int| 0 <= t < ch.len() implies ch[t] == 0 by {
            assert(narrow.ensures((cv[t],), ch[t]));
        }
    }
    assert forall|t: int| 0 <= t < out.len() implies out[t] == 0 by {
        assert(ch[t / 2] == 0);
    }
}

/// The half-precision pattern of one.
pub const ONE_HALF: u16 = 0x3c00;

/// The single-precision pattern of one.
pub const ONE_SINGLE: u32 = 0x3f80_0000;

/// Whether `halves` are those of the identity matrix of the given size: one
/// on the diagonal and positive zero elsewhere.
pub open spec fn is_identity(halves: Seq<u16>, size: int) -> bool {
    &&& halves.len() == size * size
    &&& forall|i: int, j: int|
        0 <= i < size && 0 <= j < size ==> #[trigger] halves[i * size + j] == (if i == j {
            ONE_HALF
        } else {
            0u16
        })
}

/// Whether `s` is what widening may give for one of `halves`.
pub open spec fn widens_from<W: Fn(u16) -> u32>(widen: W, halves: Seq<u16>, s: u32) -> bool {
    exists|t: int| 0 <= t < halves.len() && #[trigger] widen.ensures((halves[t],), s)
}

/// Whether widening takes positive zero and one to positive zero and one,
/// and narrowing undoes widening on each of `halves`.
pub open spec fn converts_exactly<W: Fn(u16) -> u32, N: Fn(u32) -> u16>(
    widen: W,
    narrow: N,
    halves: Seq<u16>,
) -> bool {
    &&& forall|r: u32| #[trigger] widen.ensures((0u16,), r) ==> r == 0
    &&& forall|r: u32| #[trigger] widen.ensures((ONE_HALF,), r) ==> r == ONE_SINGLE
    &&& forall|t: int, s: u32, h: u16|
        0 <= t < halves.len() && #[trigger] widen.ensures((halves[t],), s)
            && #[trigger] narrow.ensures((s,), h) ==> h == halves[t]
}

/// Whether, on the widened values of `halves` standing on the right of a
/// product, adding zero times a value changes neither zero nor a value, and
/// adding one times a value to zero gives that value.
pub open spec fn sums_exactly_on_right<W: Fn(u16) -> u32, S: Fn(u32, u32, u32) -> u32>(
    widen: W,
    step: S,
    halves: Seq<u16>,
) -> bool {
    &&& forall|sum: u32, y: u32, r: u32|
        (sum == 0 || widens_from(widen, halves, sum)) && widens_from(widen, halves, y)
            && #[trigger] step.ensures((sum, 0u32, y), r) ==> r == sum
    &&& forall|y: u32, r: u32|
        widens_from(widen, halves, y) && #[trigger] step.ensures((0u32, ONE_SINGLE, y), r) ==> r
            == y
}

/// Whether, on the widened values of `halves` standing on the left of a
/// product, adding a value times zero changes neither zero nor a value, and
/// adding a value times one to zero gives that value.
pub open spec fn sums_exactly_on_left<W: Fn(u16) -> u32, S: Fn(u32, u32, u32) -> u32>(
    widen: W,
    step: S,
    halves: Seq<u16>,
) -> bool {
    &&& forall|sum: u32, x: u32, r: u32|
        (sum == 0 || widens_from(widen, halves, sum)) && widens_from(widen, halves, x)
            && #[trigger] step.ensures((sum, x, 0u32), r) ==> r == sum
    &&& forall|x: u32, r: u32|
        widens_from(widen, halves, x) && #[trigger] step.ensures((0u32, x, ONE_SINGLE), r) ==> r
            == x
}

/// A running sum in which every step but the one at `d` leaves the sum as it
/// was, and the step at `d` takes zero to `kept[d]`, ends at `kept[d]`, or at
/// zero where `d` lies behind the last pair.
proof fn lemma_dot_picks_one<S: Fn(u32, u32, u32) -> u32>(
    step: S,
    xs: Seq<u32>,
    ys: Seq<u32>,
    kept: Seq<u32>,
    d: int,
    acc: u32,
)
    requires
        xs.len() == ys.len(),
        xs.len() == kept.len(),
        0 <= d,
        forall|p: int, sum: u32, r: u32|
            0 <= p < xs.len() && p != d && (sum == 0 || (d < p && sum == kept[d]))
                && #[trigger] step.ensures((sum, xs[p], ys[p]), r) ==> r == sum,
        forall|r: u32|
            d < xs.len() && #[trigger] step.ensures((0u32, xs[d], ys[d]), r) ==> r == kept[d],
        dot_outcome(step, xs, ys, acc),
    ensures
        acc == (if d < xs.len() {
            kept[d]
        } else {
            0u32
        }),
    decreases xs.len(),
{
    if xs.len() > 0 {
        let last = xs.len() - 1;
        let xs0 = xs.drop_last();
        let ys0 = ys.drop_last();
        let kept0 = kept.drop_last();
        let prev = choose|prev: u32|
            dot_outcome(step, xs0, ys0, prev) && #[trigger] step.ensures(
                (prev, xs.last(), ys.last()),
                acc,
            );
        assert forall|p: int, sum: u32, r: u32|
            0 <= p < xs0.len() && p != d && (sum == 0 || (d < p && sum == kept0[d]))
                && #[trigger] step.ensures((sum, xs0[p], ys0[p]), r) implies r == sum by {
            assert(step.ensures((sum, xs[p], ys[p]), r));
        }
        assert forall|r: u32| d < xs0.len() && #[trigger] step.ensures(
            (0u32, xs0[d], ys0[d]),
            r,
        ) implies r == kept0[d] by {
            assert(step.ensures((0u32, xs[d], ys[d]), r));
        }
        lemma_dot_picks_one(step, xs0, ys0, kept0, d, prev);
        assert(step.ensures((prev, xs[last], ys[last]), acc));
    }
}

/// The identity matrix on the left returns the right operand byte for byte,
/// under arithmetic that is exact on the values of that operand.
pub proof fn lemma_identity_on_the_left<
    W: Fn(u16) -> u32,
    S: Fn(u32, u32, u32) -> u32,
    N: Fn(u32) -> u16,
>(widen: W, step: S, narrow: N, a: Seq<u8>, b: Seq<u8>, n: int, k: int, out: Seq<u8>)
    requires
        0 <= n,
        0 <= k,
        shape_matches(a.len() as int, b.len() as int, k, n, k),
        is_identity(halves_of(a), k),
        converts_exactly(widen, narrow, halves_of(b)),
        sums_exactly_on_right(widen, step, halves_of(b)),
        gemm_outcome(widen, step, narrow, a, b, k, n, k, out),
    ensures
        out == b,
{
    let (av, bv, cv, ch) = choose|av: Seq<u32>, bv: Seq<u32>, cv: Seq<u32>, ch: Seq<u16>| #[trigger]
        stages(widen, step, narrow, a, b, k, n, k, av, bv, cv, ch, out);
    let ha = halves_of(a);
    let hb = halves_of(b);
    assert(hb.len() == k * n) by {
        assert(b.len() == k * n * 2);
    }
    assert forall|t: int| 0 <= t < cv.len() implies cv[t] == bv[t] by {
        lemma_cell_position(t, k, n);
        let i = t / n;
        let j = t % n;
        let xs = row(av, k, i);
        let ys = column(bv, n, k, j);
        assert(dot_outcome(step, xs, ys, cv[i * n + j]));
        assert(i * k + k == (i + 1) * k) by (nonlinear_arith);
        assert(0 <= i * k && (i + 1) * k <= k * k) by (nonlinear_arith)
            requires
                0 <= i < k,
        ;
        assert forall|p: int| 0 <= p < k implies xs[p] == (if p == i {
            ONE_SINGLE
        } else {
            0u32
        }) && widens_from(widen, hb, ys[p]) by {
            assert(xs[p] == av[i * k + p]);
            assert(widen.ensures((ha[i * k + p],), av[i * k + p]));
            assert(0 <= p * n + j < k * n) by (nonlinear_arith)
                requires
                    0 <= p < k,
                    0 <= j < n,
            ;
            assert(widen.ensures((hb[p * n + j],), bv[p * n + j]));
        }
        assert forall|p: int, sum: u32, r: u32|
            0 <= p < xs.len() && p != i && (sum == 0 || (i < p && sum == ys[i]))
                && #[trigger] step.ensures((sum, xs[p], ys[p]), r) implies r == sum by {
            assert(widens_from(widen, hb, ys[p]));
            if sum != 0 {
                assert(widens_from(widen, hb, ys[i]));
            }
        }
        assert forall|r: u32| i < xs.len() && #[trigger] step.ensures(
            (0u32, xs[i], ys[i]),
            r,
        ) implies r == ys[i] by {
            assert(widens_from(widen, hb, ys[i]));
        }
        lemma_dot_picks_one(step, xs, ys, ys, i, cv[t]);
        assert(ys[i] == bv[i * n + j]);
    }
    assert(cv =~= bv);
    lemma_unchanged_buffer_round_trips(widen, narrow, b, bv, ch);
}

/// The identity matrix on the right returns the left operand byte for byte,
/// under arithmetic that is exact on the values of that operand.
pub proof fn lemma_identity_on_the_right<
    W: Fn(u16) -> u32,
    S: Fn(u32, u32, u32) -> u32,
    N: Fn(u32) -> u16,
>(widen: W, step: S, narrow: N, a: Seq<u8>, b: Seq<u8>, m: int, n: int, out: Seq<u8>)
    requires
        0 <= m,
        0 <= n,
        shape_matches(a.len() as int, b.len() as int, m, n, n),
        is_identity(halves_of(b), n),
        converts_exactly(widen, narrow, halves_of(a)),
        sums_exactly_on_left(widen, step, halves_of(a)),
        gemm_outcome(widen, step, narrow, a, b, m, n, n, out),
    ensures
        out == a,
{
    let (av, bv, cv, ch) = choose|av: Seq<u32>, bv: Seq<u32>, cv: Seq<u32>, ch: Seq<u16>| #[trigger]
        stages(widen, step, narrow, a, b, m, n, n, av, bv, cv, ch, out);
    let ha = halves_of(a);
    let hb = halves_of(b);
    assert(ha.len() == m * n) by {
        assert(a.len() == m * n * 2);
    }
    assert forall|t: int| 0 <= t < cv.len() implies cv[t] == av[t] by {
        lemma_cell_position(t, m, n);
        let i = t / n;
        let j = t % n;
        let xs = row(av, n, i);
        let ys = column(bv, n, n, j);
        assert(dot_outcome(step, xs, ys, cv[i * n + j]));
        assert(i * n + n == (i + 1) * n) by (nonlinear_arith);
        assert(0 <= i * n && (i + 1) * n <= m * n) by (nonlinear_arith)
            requires
                0 <= i < m,
                0 <= n,
        ;
        assert forall|p: int| 0 <= p < n implies ys[p] == (if p == j {
            ONE_SINGLE
        } else {
            0u32
        }) && widens_from(widen, ha, xs[p]) by {
            assert(xs[p] == av[i * n + p]);
            assert(widen.ensures((ha[i * n + p],), av[i * n + p]));
            assert(0 <= p * n + j < n * n) by (nonlinear_arith)
                requires
                    0 <= p < n,
                    0 <= j < n,
            ;
            assert(widen.ensures((hb[p * n + j],), bv[p * n + j]));
        }
        assert forall|p: int, sum: u32, r: u32|
            0 <= p < xs.len() && p != j && (sum == 0 || (j < p && sum == xs[j]))
                && #[trigger] step.ensures((sum, xs[p], ys[p]), r) implies r == sum by {
            assert(widens_from(widen, ha, xs[p]));
            if sum != 0 {
                assert(widens_from(widen, ha, xs[j]));
            }
        }
        assert forall|r: u32| j < xs.len() && #[trigger] step.ensures(
            (0u32, xs[j], ys[j]),
            r,
        ) implies r == xs[j] by {
            assert(widens_from(widen, ha, xs[j]));
        }
        lemma_dot_picks_one(step, xs, ys, xs, j, cv[t]);
        assert(xs[j] == av[i * n + j]);
    }
    assert(cv =~= av);
    lemma_unchanged_buffer_round_trips(widen, narrow, a, av, ch);
}

/// A buffer of whole pairs that is decoded, widened, narrowed and encoded
/// again comes back byte for byte, as long as narrowing undoes widening on
/// each half that the buffer holds.
pub proof fn lemma_unchanged_buffer_round_trips<W: Fn(u16) -> u32, N: Fn(u32) -> u16>(
    widen: W,
    narrow: N,
    bytes: Seq<u8>,
    singles: Seq<u32>,
    halves: Seq<u16>,
)
    requires
        bytes.len() % 2 == 0,
        maps_each(widen, halves_of(bytes), singles),
        maps_each(narrow, singles, halves),
        forall|t: int, s: u32, h: u16|
            0 <= t < halves_of(bytes).len() && #[trigger] widen.ensures((halves_of(bytes)[t],), s)
                && #[trigger] narrow.ensures((s,), h) ==> h == halves_of(bytes)[t],
    ensures
        bytes_of(halves) == bytes,
{
    assert forall|t: int| 0 <= t < halves.len() implies halves[t] == halves_of(bytes)[t] by {
        assert(widen.ensures((halves_of(bytes)[t],), singles[t]));
        assert(narrow.ensures((singles[t],), halves[t]));
    }
    assert(halves =~= halves_of(bytes));
    lemma_write_after_read(bytes);
}

} // verus!
