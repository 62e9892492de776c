//! Filters of frames that leave nothing to round: their autocorrelation is the sum that it
//! stands for, their coefficients solve the normal equations, and the companion matrix has
//! the roots of the filter's polynomial.

use crate::correlation::{exact_products, is_unrounded, steps, total};
use crate::equations::{
    is_exact, is_exact_step, left_side, lemma_normal_equations, multiples, one, terms,
};
use crate::exact::{
    dyadic, is_number, lemma_dyadic, lemma_prod_exact, lemma_quot_exact, lemma_signs,
    lemma_size_zero, lemma_sum_exact, lemma_whole_is_dyadic,
};
use crate::formants::companion_entry;
use crate::laws::lemma_units_finer;
use crate::loudness::{are_multiples, lemma_squares_add_up, lemma_squares_total, squares};
use crate::lpc::{
    autocorrelation, forward_sum, lag_sum, lemma_levinson_durbin_len, levinson_durbin, prediction,
    reflection, shaped, Recursion,
};
use crate::number::{binary32, diff32, prod32, sum32, whole32, zero32, Num};
use crate::rounding::lemma_round_holds;
use vstd::arithmetic::power2::{lemma_pow2_adds, lemma_pow2_pos, pow2};
use vstd::prelude::*;

verus! {

/// The number `c / 2^s`, of either sign.
pub open spec fn ratio(c: int, s: nat) -> Num {
    if c < 0 {
        dyadic((-c) as nat, s).minus()
    } else {
        dyadic(c as nat, s)
    }
}

proof fn lemma_ratio(c: int, s: nat)
    requires
        -0x100_0000 < c < 0x100_0000,
        s <= 149,
    ensures
        is_number(ratio(c, s)),
        steps(ratio(c, s)) == c * pow2((149 - s) as nat),
{
    let p = pow2((149 - s) as nat) as int;
    if c < 0 {
        lemma_dyadic((-c) as nat, s);
        lemma_signs(dyadic((-c) as nat, s));
        assert(-((-c) * p) == c * p) by (nonlinear_arith);
    } else {
        lemma_dyadic(c as nat, s);
    }
}

/// The products of integers `lag` apart.
pub open spec fn lag_products(k: Seq<int>, lag: nat) -> Seq<int> {
    Seq::new(
        if lag <= k.len() {
            (k.len() - lag) as nat
        } else {
            0
        },
        |j: int| k[j + lag] * k[j],
    )
}

/// A product of two multiples of `2^-s`.
proof fn lemma_multiple_product(a: Num, b: Num, i: int, j: int, s: nat)
    requires
        is_number(a),
        is_number(b),
        2 * s <= 149,
        steps(a) == i * pow2((149 - s) as nat),
        steps(b) == j * pow2((149 - s) as nat),
        -0x100_0000 < i * j < 0x100_0000,
    ensures
        is_number(prod32(a, b)),
        steps(prod32(a, b)) == (i * j) * pow2((149 - 2 * s) as nat),
{
    let h = pow2((149 - s) as nat) as int;
    let w = pow2((149 - 2 * s) as nat) as int;
    let u = one();
    lemma_pow2_adds((149 - s) as nat, (149 - s) as nat);
    lemma_pow2_adds((149 - 2 * s) as nat, 149);
    lemma_ratio(i * j, 2 * s);
    assert((i * h) * (j * h) == ((i * j) * w) * u) by (nonlinear_arith)
        requires
            h * h == w * u,
    ;
    lemma_prod_exact(a, b, ratio(i * j, 2 * s));
}

/// A sum of two multiples of `2^-s`.
proof fn lemma_multiple_sum(a: Num, b: Num, i: int, j: int, s: nat)
    requires
        is_number(a),
        is_number(b),
        s <= 149,
        steps(a) == i * pow2((149 - s) as nat),
        steps(b) == j * pow2((149 - s) as nat),
        -0x100_0000 < i + j < 0x100_0000,
    ensures
        is_number(sum32(a, b)),
        steps(sum32(a, b)) == (i + j) * pow2((149 - s) as nat),
{
    let p = pow2((149 - s) as nat) as int;
    lemma_ratio(i + j, s);
    assert(i * p + j * p == (i + j) * p) by (nonlinear_arith);
    lemma_sum_exact(a, b, ratio(i + j, s));
}

/// The products of the first integers are bounded by the sum of the squares.
proof fn lemma_lag_products_bounded(k: Seq<int>, lag: nat, n: nat)
    requires
        lag + n <= k.len(),
    ensures
        ({
            let t = total(lag_products(k, lag).take(n as int));
            let q = total(squares(k).take((n + lag) as int)) + total(squares(k).take(n as int));
            -q <= 2 * t <= q
        }),
    decreases n,
{
    lemma_squares_add_up(k, n);
    lemma_squares_add_up(k, n + lag);
    if n > 0 {
        let j = n - 1;
        lemma_lag_products_bounded(k, lag, j as nat);
        assert(lag_products(k, lag).take(n as int).drop_last() =~= lag_products(k, lag).take(j));
        assert(squares(k).take(n as int).drop_last() =~= squares(k).take(j));
        assert(squares(k).take((n + lag) as int).drop_last() =~= squares(k).take((j + lag) as int));
        let (a, b) = (k[j + lag], k[j]);
        assert(-(a * a + b * b) <= 2 * (a * b) <= a * a + b * b) by (nonlinear_arith);
    }
}

/// One product is bounded by the sum of the squares.
proof fn lemma_product_bounded(k: Seq<int>, i: int, j: int)
    requires
        0 <= i < k.len(),
        0 <= j < k.len(),
    ensures
        -total(squares(k)) <= k[i] * k[j] <= total(squares(k)),
{
    lemma_square_bounded(k, i);
    lemma_square_bounded(k, j);
    let (a, b) = (k[i], k[j]);
    assert(-(a * a + b * b) <= 2 * (a * b) <= a * a + b * b) by (nonlinear_arith);
}

proof fn lemma_square_bounded(k: Seq<int>, i: int)
    requires
        0 <= i < k.len(),
    ensures
        k[i] * k[i] <= total(squares(k)),
    decreases k.len(),
{
    let front = k.drop_last();
    assert(squares(k).drop_last() =~= squares(front));
    lemma_squares_total(front);
    let v = k.last();
    assert(v * v >= 0) by (nonlinear_arith);
    if i < front.len() {
        lemma_square_bounded(front, i);
    }
}

#[verifier::rlimit(40)]
proof fn lemma_lag_sum_exact(x: Seq<Num>, k: Seq<int>, s: nat, lag: nat, end: nat)
    requires
        are_multiples(x, k, s),
        2 * s <= 149,
        total(squares(k)) < 0x100_0000,
        end <= x.len(),
    ensures
        is_number(lag_sum(x, lag, end)),
        end <= lag ==> steps(lag_sum(x, lag, end)) == 0,
        lag <= end ==> steps(lag_sum(x, lag, end)) == total(
            lag_products(k, lag).take(end - lag),
        ) * pow2((149 - 2 * s) as nat),
    decreases end,
{
    let w = pow2((149 - 2 * s) as nat) as int;
    if end <= lag {
        lemma_round_holds(binary32(), false, 0, 0, false);
        assert(0 * pow2(0) == 0 && 0 * w == 0) by (nonlinear_arith);
    } else {
        let m = (end - 1) as nat;
        let n = (end - lag) as nat;
        lemma_lag_sum_exact(x, k, s, lag, m);
        let products = lag_products(k, lag);
        assert(products.take(n as int).drop_last() =~= products.take(n - 1));
        let (a, b) = (x[end - 1], x[end - 1 - lag]);
        let (i, j) = (k[end - 1], k[end - 1 - lag]);
        lemma_product_bounded(k, end - 1, end - 1 - lag);
        lemma_multiple_product(a, b, i, j, s);
        lemma_lag_products_bounded(k, lag, n);
        lemma_squares_add_up(k, n);
        lemma_squares_add_up(k, n + lag);
        let before = total(products.take(n - 1));
        assert(products[n - 1] == i * j);
        if m < lag || m == lag {
            assert(products.take(n - 1) =~= Seq::empty());
            assert(0 * w == 0);
        }
        lemma_multiple_sum(lag_sum(x, lag, m), prod32(a, b), before, i * j, 2 * s);
    }
}

/// The autocorrelation at a lag is the sum of the products of samples that far apart: for
/// samples that are multiples `k` of some `2^-s`, wherever the sum of the squares fits the
/// format.
#[verifier::rlimit(40)]
pub proof fn lemma_autocorrelation_in_numbers(
    x: Seq<Num>,
    k: Seq<int>,
    s: nat,
    order: nat,
    lag: nat,
)
    requires
        are_multiples(x, k, s),
        2 * s <= 149,
        total(squares(k)) < 0x100_0000,
        lag <= order,
    ensures
        autocorrelation(x, order).len() == order + 1,
        is_number(autocorrelation(x, order)[lag as int]),
        steps(autocorrelation(x, order)[lag as int]) == total(lag_products(k, lag)) * pow2(
            (149 - 2 * s) as nat,
        ),
        is_unrounded(x, order, lag),
{
    let n = x.len();
    let w = pow2((149 - 2 * s) as nat) as int;
    let v = autocorrelation(x, order)[lag as int];
    lemma_lag_sum_exact(x, k, s, lag, n);
    if lag <= n {
        assert(lag_products(k, lag).take(n - lag) =~= lag_products(k, lag));
    } else {
        assert(lag_products(k, lag) =~= Seq::empty());
        assert(0 * w == 0);
    }
    // the same sum in the finest units
    let y = binary32().min_exp();
    lemma_units_finer(v, y, 2 * y);
    let h = pow2((149 - s) as nat) as int;
    lemma_pow2_adds((149 - s) as nat, (149 - s) as nat);
    lemma_pow2_adds((149 - 2 * s) as nat, 149);
    let exact = exact_products(x, lag);
    let small = lag_products(k, lag);
    assert forall|j: int| 0 <= j < small.len() implies #[trigger] exact[j] == small[j] * (h
        * h) by {
        let (a, b) = (k[j + lag], k[j]);
        assert(steps(x[j + lag]) == a * h && steps(x[j]) == b * h);
        assert((a * h) * (b * h) == (a * b) * (h * h)) by (nonlinear_arith);
    }
    lemma_total_scales(exact, small, h * h);
    let t = total(small);
    assert((t * w) * one() == t * (w * one())) by (nonlinear_arith);
}

proof fn lemma_total_scales(a: Seq<int>, b: Seq<int>, f: int)
    requires
        a.len() == b.len(),
        forall|j: int| 0 <= j < b.len() ==> #[trigger] a[j] == b[j] * f,
    ensures
        total(a) == total(b) * f,
    decreases a.len(),
{
    if a.len() > 0 {
        lemma_total_scales(a.drop_last(), b.drop_last(), f);
        let (x, y) = (total(b.drop_last()), b.last());
        assert(a[a.len() - 1] == b[b.len() - 1] * f);
        assert((x + y) * f == x * f + y * f) by (nonlinear_arith);
    } else {
        assert(0 * f == 0);
    }
}

/// Whether a number is a multiple of `2^-s`, at most `limit` of them.
pub open spec fn is_coarse(v: Num, s: nat, limit: int) -> bool {
    is_number(v) && exists|c: int|
        -limit <= c <= limit && steps(v) == #[trigger] (c * pow2((149 - s) as nat))
}

/// Whether every number of a sequence is.
pub open spec fn all_coarse(v: Seq<Num>, s: nat, limit: int) -> bool {
    forall|i: int| 0 <= i < v.len() ==> is_coarse(#[trigger] v[i], s, limit)
}

/// Whether `run` is how the recursion on `r` goes without rounding, from the start through
/// `order` steps, with every value a multiple of `2^-s` of few digits.
pub open spec fn is_clean_run(
    r: Seq<Num>,
    run: Seq<Recursion>,
    order: nat,
    s: nat,
    limit: int,
) -> bool {
    &&& run.len() == order + 1
    &&& all_coarse(r, s, limit)
    &&& run[0].forward == Seq::<Num>::empty()
    &&& run[0].error == r[0]
    &&& forall|m: int|
        0 <= m <= order ==> {
            &&& (#[trigger] run[m]).forward.len() == m
            &&& all_coarse(run[m].forward, s, limit)
            &&& is_number(run[m].error)
        }
    &&& forall|m: int|
        0 <= m < order ==> {
            &&& !(#[trigger] run[m]).error.is_zero()
            &&& run[m + 1].feedback.len() > 0
            &&& run[m + 1].feedback.last() == run[m + 1].forward.last()
            &&& is_exact_step(r, run[m], run[m + 1])
        }
}

/// Whether two sequences have the same values, zeros of either sign alike.
pub open spec fn same_values(a: Seq<Num>, b: Seq<Num>) -> bool {
    &&& a.len() == b.len()
    &&& forall|i: int|
        0 <= i < a.len() ==> is_number(#[trigger] a[i]) && steps(a[i]) == steps(b[i])
}

/// The recursion goes as it does without rounding wherever all its values have few enough
/// digits, and its forward coefficients then solve the normal equations.
#[verifier::rlimit(40)]
pub proof fn lemma_clean_run(
    r: Seq<Num>,
    run: Seq<Recursion>,
    order: nat,
    s: nat,
    limit: int,
    m: nat,
)
    requires
        order < r.len(),
        is_clean_run(r, run, order, s, limit),
        2 * s <= 149,
        pow2(s) <= limit,
        (order + 2) * (limit * limit) < 0x100_0000,
        m <= order,
    ensures
        same_values(levinson_durbin(r, m).forward, run[m as int].forward),
        is_number(levinson_durbin(r, m).error),
        steps(levinson_durbin(r, m).error) == steps(run[m as int].error),
        is_exact(r, m),
        forall|i: int|
            1 <= i <= m ==> #[trigger] left_side(r, levinson_durbin(r, m).forward, i) == 0,
    decreases m,
{
    let now = levinson_durbin(r, m);
    if m == 0 {
        assert(is_coarse(r[0], s, limit));
    } else {
        let l = (m - 1) as nat;
        lemma_clean_run(r, run, order, s, limit, l);
        lemma_clean_step(r, run, order, s, limit, l);
        assert forall|n: nat| n < m implies is_exact_step(
            r,
            #[trigger] levinson_durbin(r, n),
            levinson_durbin(r, n + 1),
        ) by {
            if n < l {
                assert(is_exact(r, l));
            } else {
                assert(n == l);
            }
        }
        assert forall|i: int| 1 <= i <= m implies #[trigger] left_side(r, now.forward, i) == 0 by {
            lemma_normal_equations(r, m, i);
        }
    }
}

/// A partial sum of the products of coefficients with the autocorrelation.
#[verifier::rlimit(40)]
proof fn lemma_forward_sum(
    r: Seq<Num>,
    b: Seq<Num>,
    i: nat,
    end: nat,
    s: nat,
    limit: int,
) -> (c: int)
    requires
        all_coarse(r, s, limit),
        all_coarse(b, s, limit),
        end <= i == b.len(),
        i + 1 < r.len(),
        2 * s <= 149,
        limit >= 0,
        end * (limit * limit) < 0x100_0000,
    ensures
        is_number(forward_sum(r, b, i, end)),
        -(end * (limit * limit)) <= c <= end * (limit * limit),
        steps(forward_sum(r, b, i, end)) == c * pow2((149 - 2 * s) as nat),
        steps(forward_sum(r, b, i, end)) * one() == total(
            terms(multiples(r), multiples(b), i as int + 1).take(end as int),
        ),
    decreases end,
{
    let w = pow2((149 - 2 * s) as nat) as int;
    let u = one();
    let t = terms(multiples(r), multiples(b), i as int + 1);
    let q = limit * limit;
    assert(q >= 0) by (nonlinear_arith)
        requires
            q == limit * limit,
    ;
    if end == 0 {
        lemma_round_holds(binary32(), false, 0, 0, false);
        assert(0 * pow2(0) == 0 && 0 * w == 0 && 0 * u == 0 && 0 * q == 0) by (nonlinear_arith);
        assert(t.take(0) =~= Seq::empty());
        0
    } else {
        let e = (end - 1) as nat;
        assert(e * q + q == end * q) by (nonlinear_arith)
            requires
                e == end - 1,
        ;
        let before = lemma_forward_sum(r, b, i, e, s, limit);
        let (v, z) = (b[e as int], r[i - e]);
        assert(is_coarse(v, s, limit) && is_coarse(z, s, limit));
        let h = pow2((149 - s) as nat);
        let x = choose|x: int| -limit <= x <= limit && steps(v) == #[trigger] (x * h);
        let y = choose|y: int| -limit <= y <= limit && steps(z) == #[trigger] (y * h);
        assert(-q <= x * y <= q) by (nonlinear_arith)
            requires
                -limit <= x <= limit,
                -limit <= y <= limit,
                q == limit * limit,
        ;
        assert(q <= end * q) by (nonlinear_arith)
            requires
                end >= 1,
                q >= 0,
        ;
        lemma_multiple_product(v, z, x, y, s);
        lemma_multiple_sum(forward_sum(r, b, i, e), prod32(v, z), before, x * y, 2 * s);
        assert(t.take(end as int).drop_last() =~= t.take(e as int));
        assert(t[e as int] == steps(v) * steps(z));
        lemma_pow2_adds((149 - s) as nat, (149 - s) as nat);
        lemma_pow2_adds((149 - 2 * s) as nat, 149);
        let (hh, xy) = (h as int, x * y);
        assert((x * hh) * (y * hh) == (xy * w) * u) by (nonlinear_arith)
            requires
                hh * hh == w * u,
                xy == x * y,
        ;
        assert(((before + xy) * w) * u == (before * w) * u + (xy * w) * u) by (nonlinear_arith);
        before + xy
    }
}

/// What holds of a sum of terms holds of one with other zeros.
proof fn lemma_same_left_side(r: Seq<Num>, a: Seq<Num>, b: Seq<Num>, i: int)
    requires
        same_values(a, b),
    ensures
        left_side(r, a, i) == left_side(r, b, i),
{
    assert(multiples(a) =~= multiples(b));
}

#[verifier::rlimit(40)]
proof fn lemma_clean_step(
    r: Seq<Num>,
    run: Seq<Recursion>,
    order: nat,
    s: nat,
    limit: int,
    m: nat,
)
    requires
        order < r.len(),
        is_clean_run(r, run, order, s, limit),
        2 * s <= 149,
        pow2(s) <= limit,
        (order + 2) * (limit * limit) < 0x100_0000,
        m < order,
        same_values(levinson_durbin(r, m).forward, run[m as int].forward),
        is_number(levinson_durbin(r, m).error),
        steps(levinson_durbin(r, m).error) == steps(run[m as int].error),
    ensures
        same_values(levinson_durbin(r, m + 1).forward, run[m as int + 1].forward),
        is_number(levinson_durbin(r, m + 1).error),
        steps(levinson_durbin(r, m + 1).error) == steps(run[m as int + 1].error),
        is_exact_step(r, levinson_durbin(r, m), levinson_durbin(r, m + 1)),
{
    let y = binary32().min_exp();
    let before = levinson_durbin(r, m);
    let after = levinson_durbin(r, m + 1);
    let (old_run, new_run) = (run[m as int], run[m as int + 1]);
    let b = before.forward;
    lemma_levinson_durbin_len(r, m);
    lemma_levinson_durbin_len(r, m + 1);
    lemma_pow2_pos(s);
    lemma_pow2_pos(149);
    let u = one();
    let q = limit * limit;
    assert(q >= 1 && limit <= q) by (nonlinear_arith)
        requires
            limit >= 1,
            q == limit * limit,
    ;
    assert(m * q + 2 * q <= (order + 2) * q) by (nonlinear_arith)
        requires
            m <= order,
            q >= 0,
    ;
    assert(m * q >= 0) by (nonlinear_arith)
        requires
            m >= 0,
            q >= 0,
    ;
    assert(all_coarse(b, s, limit)) by {
        assert forall|j: int| 0 <= j < b.len() implies is_coarse(#[trigger] b[j], s, limit) by {
            assert(is_coarse(old_run.forward[j], s, limit));
        }
    }
    // the sum behind the feedback coefficient
    let c = lemma_forward_sum(r, b, m, m, s, limit);
    let h = pow2((149 - s) as nat);
    let w = pow2((149 - 2 * s) as nat);
    let next = r[m as int + 1];
    assert(is_coarse(next, s, limit));
    let x = choose|x: int| -limit <= x <= limit && steps(next) == #[trigger] (x * h);
    let p = pow2(s) as int;
    lemma_pow2_adds((149 - 2 * s) as nat, s);
    assert(x * h == (x * p) * w) by (nonlinear_arith)
        requires
            h == w * p,
    ;
    assert(-q <= x * p <= q) by (nonlinear_arith)
        requires
            -limit <= x <= limit,
            0 < p <= limit,
            q == limit * limit,
    ;
    let sum = forward_sum(r, b, m, m);
    lemma_multiple_sum(next, sum, x * p, c, 2 * s);
    let top = sum32(next, sum);
    assert((x * p) * w + c * w == (x * p + c) * w) by (nonlinear_arith);
    let t = terms(multiples(r), multiples(b), m as int + 1);
    assert(t.take(m as int) =~= t);
    let (sn, ss) = (steps(next), steps(sum));
    assert((sn + ss) * u == sn * u + ss * u) by (nonlinear_arith);
    assert(steps(top) * u == left_side(r, b, m as int + 1));
    lemma_signs(top);
    lemma_same_left_side(r, b, old_run.forward, m as int + 1);
    assert(is_exact_step(r, old_run, new_run));
    let kk = new_run.feedback.last();
    assert(new_run.forward.last() == new_run.forward[m as int]);
    assert(is_coarse(new_run.forward[m as int], s, limit));
    let ek = steps(kk);
    assert((-steps(top)) * u == -(steps(top) * u)) by (nonlinear_arith);
    lemma_size_zero(before.error, y);
    lemma_size_zero(old_run.error, y);
    assert(!old_run.error.is_zero());
    lemma_quot_exact(top.minus(), before.error, kk);
    let k = reflection(r, b, m, before.error);
    assert(is_number(k) && steps(k) == ek);
    assert(after.forward.last() == k && after.feedback.last() == k);
    let z = choose|z: int| -limit <= z <= limit && steps(kk) == #[trigger] (z * h);
    // the forward coefficients
    assert forall|j: int| 0 <= j < m + 1 implies is_number(#[trigger] after.forward[j]) && steps(
        after.forward[j],
    ) == steps(new_run.forward[j]) by {
        if j < m {
            let (a, d) = (b[j], b[m - 1 - j]);
            assert(is_coarse(a, s, limit) && is_coarse(d, s, limit));
            let e = choose|e: int| -limit <= e <= limit && steps(d) == #[trigger] (e * h);
            assert(-q <= z * e <= q) by (nonlinear_arith)
                requires
                    -limit <= z <= limit,
                    -limit <= e <= limit,
                    q == limit * limit,
            ;
            lemma_multiple_product(k, d, z, e, s);
            lemma_pow2_adds((149 - s) as nat, (149 - s) as nat);
            lemma_pow2_adds((149 - 2 * s) as nat, 149);
            let (hh, ww, ze) = (h as int, w as int, z * e);
            assert((z * hh) * (e * hh) == (ze * ww) * u) by (nonlinear_arith)
                requires
                    hh * hh == ww * u,
                    ze == z * e,
            ;
            let v = new_run.forward[j];
            assert(is_coarse(v, s, limit));
            assert(steps(v) * u == steps(old_run.forward[j]) * u + ek * steps(
                old_run.forward[m - 1 - j],
            ));
            let (sv, sa, sp) = (steps(v), steps(a), steps(prod32(k, d)));
            assert(sv == sa + sp) by (nonlinear_arith)
                requires
                    sv * u == sa * u + sp * u,
                    u > 0,
            ;
            lemma_sum_exact(a, prod32(k, d), v);
        }
    }
    // the error
    assert(0 <= z * z <= q) by (nonlinear_arith)
        requires
            -limit <= z <= limit,
            q == limit * limit,
    ;
    lemma_multiple_product(k, k, z, z, s);
    lemma_whole_is_dyadic(1);
    lemma_dyadic(1, 0);
    lemma_pow2_adds(s, s);
    lemma_pow2_adds((149 - 2 * s) as nat, 2 * s);
    assert(1 <= p * p <= q) by (nonlinear_arith)
        requires
            1 <= p <= limit,
            q == limit * limit,
    ;
    assert(u == (p * p) * w) by (nonlinear_arith)
        requires
            u == w * pow2(2 * s),
            pow2(2 * s) == p * p,
    ;
    lemma_signs(prod32(k, k));
    let ww = w as int;
    assert(-((z * z) * ww) == (-(z * z)) * ww) by (nonlinear_arith);
    lemma_multiple_sum(whole32(1), prod32(k, k).minus(), p * p, -(z * z), 2 * s);
    let gain = diff32(whole32(1), prod32(k, k));
    let (hh, zz) = (h as int, z * z);
    lemma_pow2_adds((149 - s) as nat, (149 - s) as nat);
    lemma_pow2_adds((149 - 2 * s) as nat, 149);
    assert(ek * ek == (zz * ww) * u) by (nonlinear_arith)
        requires
            ek == z * hh,
            hh * hh == ww * u,
            zz == z * z,
    ;
    assert(steps(gain) * u == u * u - ek * ek) by (nonlinear_arith)
        requires
            steps(gain) == (p * p + (-zz)) * ww,
            u == (p * p) * ww,
            ek * ek == (zz * ww) * u,
    ;
    let (e, g, f) = (steps(before.error), steps(gain), steps(new_run.error));
    assert(e * g == f * u) by (nonlinear_arith)
        requires
            f * (u * u) == e * (u * u - ek * ek),
            g * u == u * u - ek * ek,
            u > 0,
    ;
    lemma_prod_exact(before.error, gain, new_run.error);
    // the step that was taken is the exact one
    assert(steps(after.feedback.last()) == ek);
    assert forall|j: int| 0 <= j < m implies steps(#[trigger] after.forward[j]) * u == steps(b[j])
        * u + ek * steps(b[m - 1 - j]) by {
        assert(steps(new_run.forward[j]) * u == steps(old_run.forward[j]) * u + ek * steps(
            old_run.forward[m - 1 - j],
        ));
    }
    assert(is_exact_step(r, before, after));
}

/// The filter of a frame under a window is the one that solves the normal equations of the
/// frame after pre-emphasis and windowing, wherever the recursion on it has few enough
/// digits.
pub proof fn lemma_prediction_solves(
    x: Seq<Num>,
    window: Seq<Num>,
    run: Seq<Recursion>,
    order: nat,
    s: nat,
    limit: int,
    i: int,
)
    requires
        is_clean_run(autocorrelation(shaped(x, window), order), run, order, s, limit),
        2 * s <= 149,
        pow2(s) <= limit,
        (order + 2) * (limit * limit) < 0x100_0000,
        1 <= i <= order,
    ensures
        prediction(x, window, order).forward.len() == order,
        left_side(
            autocorrelation(shaped(x, window), order),
            prediction(x, window, order).forward,
            i,
        ) == 0,
{
    let r = autocorrelation(shaped(x, window), order);
    lemma_clean_run(r, run, order, s, limit, order);
    lemma_levinson_durbin_len(r, order);
}

/// The powers of an integer, the highest first: `z^(n - 1)` down to 1.
pub open spec fn power(z: int, e: nat) -> int
    decreases e,
{
    if e == 0 {
        1
    } else {
        z * power(z, (e - 1) as nat)
    }
}

/// The products of row `i` of the companion matrix with the powers of `z`, the highest
/// first.
pub open spec fn row_products(coefficients: Seq<Num>, i: int, z: int) -> Seq<int> {
    let n = coefficients.len();
    Seq::new(n, |j: int| steps(companion_entry(coefficients, i, j)) * power(z, (n - 1 - j) as nat))
}

/// The polynomial `z^n + c[0] * z^(n - 1) + ... + c[n - 1]`, as a multiple of the smallest
/// 32-bit number.
pub open spec fn polynomial(coefficients: Seq<Num>, z: int) -> int {
    let n = coefficients.len();
    one() * power(z, n) + total(
        Seq::new(n, |j: int| steps(coefficients[j]) * power(z, (n - 1 - j) as nat)),
    )
}

/// The companion matrix turns the powers of `z`, the highest first, into `z` times
/// themselves, but for the first, where the value of the polynomial is missing: so the roots
/// of the polynomial are its eigenvalues. This is stated for whole `z`.
pub proof fn lemma_companion_of_polynomial(coefficients: Seq<Num>, i: int, z: int)
    requires
        0 <= i < coefficients.len(),
        forall|j: int| 0 <= j < coefficients.len() ==> is_number(#[trigger] coefficients[j]),
    ensures
        ({
            let n = coefficients.len();
            total(row_products(coefficients, i, z)) == z * (one() * power(
                z,
                (n - 1 - i) as nat,
            )) - if i == 0 {
                polynomial(coefficients, z)
            } else {
                0
            }
        }),
{
    let n = coefficients.len();
    let row = row_products(coefficients, i, z);
    let u = one();
    lemma_whole_is_dyadic(1);
    lemma_dyadic(1, 0);
    lemma_whole_is_dyadic(0);
    lemma_dyadic(0, 0);
    assert(whole32(0) == zero32());
    assert(0 * pow2(149) == 0 && 1 * pow2(149) == u);
    if i == 0 {
        let plain = Seq::new(n, |j: int| steps(coefficients[j]) * power(z, (n - 1 - j) as nat));
        assert forall|j: int| 0 <= j < n implies #[trigger] row[j] == plain[j] * -1 by {
            lemma_signs(coefficients[j]);
            let (a, b) = (steps(coefficients[j]), power(z, (n - 1 - j) as nat));
            assert((-a) * b == (a * b) * -1) by (nonlinear_arith);
        }
        lemma_total_scales(row, plain, -1);
        let e = power(z, (n - 1) as nat);
        assert(z * (u * e) == u * (z * e)) by (nonlinear_arith);
    } else {
        assert forall|j: int| 0 <= j < n && j != i - 1 implies #[trigger] row[j] == 0 by {
            assert(0 * power(z, (n - 1 - j) as nat) == 0);
        }
        lemma_total_of_one(row, i - 1);
        let e = power(z, (n - 1 - i) as nat);
        assert(power(z, (n - i) as nat) == z * e);
        assert(u * (z * e) == z * (u * e)) by (nonlinear_arith);
    }
}

proof fn lemma_total_of_one(s: Seq<int>, i: int)
    requires
        0 <= i < s.len(),
        forall|j: int| 0 <= j < s.len() && j != i ==> #[trigger] s[j] == 0,
    ensures
        total(s) == s[i],
    decreases s.len(),
{
    let front = s.drop_last();
    if i < front.len() {
        lemma_total_of_one(front, i);
        assert(s[s.len() - 1] == 0);
    } else {
        lemma_total_of_nothing(front);
    }
}

proof fn lemma_total_of_nothing(s: Seq<int>)
    requires
        forall|j: int| 0 <= j < s.len() ==> #[trigger] s[j] == 0,
    ensures
        total(s) == 0,
    decreases s.len(),
{
    if s.len() > 0 {
        lemma_total_of_nothing(s.drop_last());
        assert(s[s.len() - 1] == 0);
    }
}

} // verus!
