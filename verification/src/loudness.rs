//! What the loudness of a frame, the root of the mean of its squares, is in numbers.

use crate::correlation::{lemma_square, lemma_unsigned_sum, is_unsigned, steps, total};
use crate::equations::one;
use crate::exact::{
    dyadic, is_number, lemma_dyadic, lemma_order_in_steps, lemma_prod_exact, lemma_quot_exact,
    lemma_quot_monotone, lemma_root_exact, lemma_root_monotone, lemma_square_monotone,
    lemma_sum_exact, lemma_whole_is_dyadic,
};
use crate::laws::{lemma_commutative, lemma_plus_monotone};
use crate::lpc::{root_mean_square, square_sum};
use crate::number::{binary32, fraction32, prod32, quot32, sum32, whole32, zero32, Num};
use crate::order::lemma_below_is_strict_order;
use crate::rounding::lemma_round_holds;
use vstd::arithmetic::power2::{lemma_pow2_adds, lemma_pow2_pos, pow2};
use vstd::prelude::*;

verus! {

/// Whether every sample is a 32-bit number, or infinite.
pub open spec fn is_comparable_frame(x: Seq<Num>) -> bool {
    forall|i: int| 0 <= i < x.len() ==> binary32().holds(#[trigger] x[i]) && x[i] !is Nan
}

/// Whether the samples are the multiples `k` of `2^-s`.
pub open spec fn are_multiples(x: Seq<Num>, k: Seq<int>, s: nat) -> bool {
    &&& x.len() == k.len()
    &&& forall|i: int|
        0 <= i < x.len() ==> is_number(#[trigger] x[i]) && steps(x[i]) == k[i] * pow2(
            (149 - s) as nat,
        )
}

/// The squares of some integers.
pub open spec fn squares(k: Seq<int>) -> Seq<int> {
    k.map_values(|v: int| v * v)
}

proof fn lemma_square_sum_unsigned(x: Seq<Num>, end: nat)
    requires
        is_comparable_frame(x),
        end <= x.len(),
    ensures
        is_unsigned(square_sum(x, end)),
        binary32().holds(square_sum(x, end)),
    decreases end,
{
    if end > 0 {
        let v = x[end - 1];
        lemma_square_sum_unsigned(x, (end - 1) as nat);
        lemma_square(v);
        lemma_unsigned_sum(square_sum(x, (end - 1) as nat), prod32(v, v));
    } else {
        lemma_round_holds(binary32(), false, 0, 0, false);
    }
}

/// Larger terms have the larger sum.
pub(crate) proof fn lemma_sum_monotone(a: Num, b: Num, c: Num, d: Num)
    requires
        binary32().holds(a),
        binary32().holds(b),
        binary32().holds(c),
        binary32().holds(d),
        is_unsigned(a),
        is_unsigned(b),
        is_unsigned(c),
        is_unsigned(d),
        a.at_most(b),
        c.at_most(d),
    ensures
        sum32(a, c).at_most(sum32(b, d)),
{
    let f = binary32();
    lemma_unsigned_sum(a, c);
    lemma_unsigned_sum(b, c);
    lemma_unsigned_sum(b, d);
    lemma_plus_monotone(f, a, b, c);
    lemma_commutative(f, b, c);
    lemma_commutative(f, b, d);
    lemma_plus_monotone(f, c, d, b);
    lemma_below_is_strict_order(f, sum32(a, c), sum32(b, c), sum32(b, d));
}

proof fn lemma_square_sum_monotone(x: Seq<Num>, y: Seq<Num>, end: nat)
    requires
        is_comparable_frame(x),
        is_comparable_frame(y),
        end <= x.len(),
        end <= y.len(),
        forall|i: int| 0 <= i < end ==> (#[trigger] x[i]).magnitude().at_most(y[i].magnitude()),
    ensures
        square_sum(x, end).at_most(square_sum(y, end)),
    decreases end,
{
    lemma_square_sum_unsigned(x, end);
    lemma_square_sum_unsigned(y, end);
    if end > 0 {
        let m = (end - 1) as nat;
        lemma_square_sum_monotone(x, y, m);
        lemma_square_sum_unsigned(x, m);
        lemma_square_sum_unsigned(y, m);
        let (a, b) = (x[m as int], y[m as int]);
        lemma_square(a);
        lemma_square(b);
        assert(a.magnitude().at_most(b.magnitude()));
        lemma_square_monotone(a, b);
        lemma_sum_monotone(square_sum(x, m), square_sum(y, m), prod32(a, a), prod32(b, b));
    } else {
        lemma_below_is_strict_order(binary32(), zero32(), zero32(), zero32());
    }
}

/// The length of a frame as a number to divide by.
proof fn lemma_length(n: nat)
    requires
        0 < n < 0x100_0000,
    ensures
        is_number(whole32(n)),
        !whole32(n).negative(),
        !whole32(n).is_zero(),
        steps(whole32(n)) == n * one(),
{
    lemma_whole_is_dyadic(n);
    lemma_dyadic(n, 0);
}

/// A frame whose samples are all at least as large as those of another, their signs aside,
/// is at least as loud.
pub proof fn lemma_larger_samples_are_louder(x: Seq<Num>, y: Seq<Num>)
    requires
        0 < x.len() < 0x100_0000,
        x.len() == y.len(),
        is_comparable_frame(x),
        is_comparable_frame(y),
        forall|i: int|
            0 <= i < x.len() ==> (#[trigger] x[i]).magnitude().at_most(y[i].magnitude()),
    ensures
        root_mean_square(x).at_most(root_mean_square(y)),
{
    let n = x.len();
    lemma_square_sum_unsigned(x, n);
    lemma_square_sum_unsigned(y, n);
    lemma_square_sum_monotone(x, y, n);
    lemma_length(n);
    lemma_quot_monotone(square_sum(x, n), square_sum(y, n), whole32(n));
    lemma_root_monotone(
        quot32(square_sum(x, n), whole32(n)),
        quot32(square_sum(y, n), whole32(n)),
    );
}

/// The squares of multiples add up without rounding.
#[verifier::rlimit(40)]
proof fn lemma_square_sum_exact(x: Seq<Num>, k: Seq<int>, s: nat, end: nat)
    requires
        are_multiples(x, k, s),
        2 * s <= 149,
        end <= x.len(),
        total(squares(k)) < 0x100_0000,
    ensures
        is_number(square_sum(x, end)),
        steps(square_sum(x, end)) == total(squares(k).take(end as int)) * pow2(
            (149 - 2 * s) as nat,
        ),
        0 <= total(squares(k).take(end as int)) <= total(squares(k)),
    decreases end,
{
    lemma_squares_add_up(k, end);
    let w = pow2((149 - 2 * s) as nat) as int;
    if end == 0 {
        lemma_round_holds(binary32(), false, 0, 0, false);
        assert(0 * pow2(0) == 0 && 0 * w == 0) by (nonlinear_arith);
    } else {
        let m = (end - 1) as nat;
        lemma_square_sum_exact(x, k, s, m);
        lemma_squares_add_up(k, m);
        assert(squares(k).take(end as int).drop_last() =~= squares(k).take(m as int));
        let v = x[m as int];
        let c = k[m as int];
        let before = total(squares(k).take(m as int));
        assert(c * c >= 0) by (nonlinear_arith);
        let q = (c * c) as nat;
        lemma_dyadic(q, 2 * s);
        let h = pow2((149 - s) as nat) as int;
        lemma_pow2_adds((149 - s) as nat, (149 - s) as nat);
        lemma_pow2_adds((149 - 2 * s) as nat, 149);
        assert((c * h) * (c * h) == (c * c * w) * one()) by (nonlinear_arith)
            requires
                h * h == w * one(),
        ;
        assert(steps(dyadic(q, 2 * s)) == c * c * w);
        lemma_prod_exact(v, v, dyadic(q, 2 * s));
        let sum = (before + c * c) as nat;
        lemma_dyadic(sum, 2 * s);
        assert(before * w + c * c * w == (before + c * c) * w) by (nonlinear_arith);
        lemma_sum_exact(square_sum(x, m), prod32(v, v), dyadic(sum, 2 * s));
    }
}

pub(crate) proof fn lemma_squares_add_up(k: Seq<int>, end: nat)
    requires
        end <= k.len(),
    ensures
        0 <= total(squares(k).take(end as int)) <= total(squares(k)),
    decreases k.len() - end,
{
    let sq = squares(k);
    if end == k.len() {
        assert(sq.take(end as int) =~= sq);
        lemma_squares_total(k);
    } else {
        lemma_squares_add_up(k, end + 1);
        assert(sq.take((end + 1) as int).drop_last() =~= sq.take(end as int));
        let v = k[end as int];
        assert(v * v >= 0) by (nonlinear_arith);
        lemma_squares_total(k.take(end as int));
        assert(squares(k.take(end as int)) =~= sq.take(end as int));
    }
}

pub(crate) proof fn lemma_squares_total(k: Seq<int>)
    ensures
        total(squares(k)) >= 0,
    decreases k.len(),
{
    if k.len() > 0 {
        lemma_squares_total(k.drop_last());
        assert(squares(k).drop_last() =~= squares(k.drop_last()));
        let v = k.last();
        assert(v * v >= 0) by (nonlinear_arith);
    }
}

/// The mean `m * m / 4^s` of a sum, and its root.
#[verifier::rlimit(40)]
proof fn lemma_exact_mean(n: nat, m: nat, s: nat, sum: Num)
    requires
        n > 0,
        n * (m * m) < 0x100_0000,
        2 * s <= 149,
        is_number(sum),
        !sum.negative(),
        steps(sum) == (n * (m * m)) * pow2((149 - 2 * s) as nat),
        n < 0x100_0000,
    ensures
        steps(quot32(sum, whole32(n)).root(binary32())) == steps(dyadic(m, s)),
        is_number(quot32(sum, whole32(n)).root(binary32())),
        m > 0 ==> quot32(sum, whole32(n)).root(binary32()) == dyadic(m, s),
        is_number(dyadic(m, s)),
{
    let f = binary32();
    let q = m * m;
    assert(q <= n * q && m <= q && q >= 0) by (nonlinear_arith)
        requires
            n >= 1,
            q == m * m,
            m >= 0,
    ;
    lemma_dyadic(q, 2 * s);
    lemma_dyadic(m, s);
    lemma_length(n);
    let w = pow2((149 - 2 * s) as nat) as int;
    let u = one();
    assert((q * w) * (n * u) == ((n * q) * w) * u) by (nonlinear_arith);
    lemma_quot_exact(sum, whole32(n), dyadic(q, 2 * s));
    let mean = quot32(sum, whole32(n));
    lemma_below_is_strict_order(f, sum, sum, sum);
    lemma_quot_monotone(sum, sum, whole32(n));
    let h = pow2((149 - s) as nat) as int;
    lemma_pow2_adds((149 - s) as nat, (149 - s) as nat);
    lemma_pow2_adds((149 - 2 * s) as nat, 149);
    assert((m * h) * (m * h) == (q * w) * u) by (nonlinear_arith)
        requires
            h * h == w * u,
            q == m * m,
    ;
    lemma_root_exact(mean, dyadic(m, s));
    if m > 0 {
        assert(!dyadic(m, s).is_zero());
    }
}

/// A frame whose squares have the mean `m * m` has the loudness `m`: for samples that are
/// multiples `k` of some `2^-s`, wherever the sum of the squares fits the format.
pub proof fn lemma_loudness_in_numbers(x: Seq<Num>, k: Seq<int>, s: nat, m: nat)
    requires
        x.len() > 0,
        are_multiples(x, k, s),
        2 * s <= 149,
        total(squares(k)) == x.len() * (m * m),
        total(squares(k)) < 0x100_0000,
        x.len() < 0x100_0000,
    ensures
        root_mean_square(x).at_most(dyadic(m, s)),
        dyadic(m, s).at_most(root_mean_square(x)),
        m > 0 ==> root_mean_square(x) == dyadic(m, s),
{
    let n = x.len();
    assert(is_comparable_frame(x));
    lemma_square_sum_unsigned(x, n);
    lemma_square_sum_exact(x, k, s, n);
    assert(squares(k).take(n as int) =~= squares(k));
    lemma_exact_mean(n, m, s, square_sum(x, n));
    lemma_order_in_steps(root_mean_square(x), dyadic(m, s));
    lemma_order_in_steps(dyadic(m, s), root_mean_square(x));
}

/// The numbers against which the loudness of a frame is held.
proof fn lemma_level(n: nat, m: nat, s: nat)
    requires
        0 < n < 0x100_0000,
        n * (m * m) < 0x100_0000,
        2 * s <= 149,
    ensures
        is_number(dyadic(n * (m * m), 2 * s)),
        !dyadic(n * (m * m), 2 * s).negative(),
        steps(dyadic(n * (m * m), 2 * s)) == (n * (m * m)) * pow2((149 - 2 * s) as nat),
{
    lemma_dyadic(n * (m * m), 2 * s);
}

/// The loudness is on the side of `m / 2^s` on which the sum of the squares is.
#[verifier::rlimit(40)]
proof fn lemma_loudness_by_sum(x: Seq<Num>, m: nat, s: nat)
    requires
        0 < x.len() < 0x100_0000,
        is_comparable_frame(x),
        x.len() * (m * m) < 0x100_0000,
        2 * s <= 149,
    ensures
        binary32().holds(root_mean_square(x)),
        root_mean_square(x) !is Nan,
        square_sum(x, x.len()).at_most(dyadic(x.len() * (m * m), 2 * s))
            ==> root_mean_square(x).at_most(dyadic(m, s)),
        dyadic(x.len() * (m * m), 2 * s).at_most(square_sum(x, x.len())) ==> dyadic(
            m,
            s,
        ).at_most(root_mean_square(x)),
{
    let f = binary32();
    let n = x.len();
    let sum = square_sum(x, n);
    let level = dyadic(n * (m * m), 2 * s);
    lemma_square_sum_unsigned(x, n);
    lemma_level(n, m, s);
    lemma_length(n);
    lemma_exact_mean(n, m, s, level);
    let root = quot32(level, whole32(n)).root(f);
    lemma_order_in_steps(root, dyadic(m, s));
    lemma_order_in_steps(dyadic(m, s), root);
    lemma_below_is_strict_order(f, sum, sum, sum);
    lemma_quot_monotone(sum, sum, whole32(n));
    lemma_below_is_strict_order(
        f,
        quot32(sum, whole32(n)),
        quot32(sum, whole32(n)),
        quot32(sum, whole32(n)),
    );
    lemma_root_monotone(quot32(sum, whole32(n)), quot32(sum, whole32(n)));
    lemma_below_is_strict_order(f, root_mean_square(x), root, dyadic(m, s));
    lemma_below_is_strict_order(f, dyadic(m, s), root, root_mean_square(x));
    if sum.at_most(level) {
        lemma_quot_monotone(sum, level, whole32(n));
        lemma_root_monotone(quot32(sum, whole32(n)), quot32(level, whole32(n)));
    }
    if level.at_most(sum) {
        lemma_quot_monotone(level, sum, whole32(n));
        lemma_root_monotone(quot32(level, whole32(n)), quot32(sum, whole32(n)));
    }
}

/// The loudness of a frame is a 32-bit number, or infinite.
pub proof fn lemma_loudness_is_a_number(x: Seq<Num>)
    requires
        0 < x.len() < 0x100_0000,
        is_comparable_frame(x),
    ensures
        binary32().holds(root_mean_square(x)),
        root_mean_square(x) !is Nan,
{
    lemma_loudness_by_sum(x, 0, 0);
}

/// The loudness of a frame lies between its smallest and its largest sample: it is on the
/// side of `m / 2^s` on which every sample is, its sign aside, for each such number of few
/// enough digits.
#[verifier::rlimit(40)]
pub proof fn lemma_loudness_between_samples(x: Seq<Num>, m: nat, s: nat)
    requires
        0 < x.len() < 0x100_0000,
        is_comparable_frame(x),
        x.len() * (m * m) < 0x100_0000,
        2 * s <= 149,
    ensures
        (forall|i: int|
            0 <= i < x.len() ==> (#[trigger] x[i]).magnitude().at_most(dyadic(m, s)))
            ==> root_mean_square(x).at_most(dyadic(m, s)),
        (forall|i: int|
            0 <= i < x.len() ==> dyadic(m, s).at_most((#[trigger] x[i]).magnitude()))
            ==> dyadic(m, s).at_most(root_mean_square(x)),
{
    let f = binary32();
    let n = x.len();
    let q = m * m;
    assert(q <= n * q && m <= q && q >= 0) by (nonlinear_arith)
        requires
            n >= 1,
            q == m * m,
            m >= 0,
    ;
    let v = dyadic(m, s);
    lemma_dyadic(m, s);
    let even = Seq::new(n, |i: int| v);
    let k = Seq::new(n, |i: int| m as int);
    lemma_total_of_same(k, m as int);
    assert(are_multiples(even, k, s));
    assert(v.magnitude() == v);
    lemma_square_sum_exact(even, k, s, n);
    assert(squares(k).take(n as int) =~= squares(k));
    lemma_level(n, m, s);
    let sum = square_sum(x, n);
    let level = dyadic(n * (m * m), 2 * s);
    let flat = square_sum(even, n);
    lemma_order_in_steps(flat, level);
    lemma_order_in_steps(level, flat);
    lemma_square_sum_unsigned(x, n);
    lemma_loudness_by_sum(x, m, s);
    lemma_below_is_strict_order(f, sum, flat, level);
    lemma_below_is_strict_order(f, level, flat, sum);
    if forall|i: int| 0 <= i < n ==> (#[trigger] x[i]).magnitude().at_most(dyadic(m, s)) {
        lemma_square_sum_monotone(x, even, n);
    }
    if forall|i: int| 0 <= i < n ==> dyadic(m, s).at_most((#[trigger] x[i]).magnitude()) {
        assert forall|i: int| 0 <= i < n implies (#[trigger] even[i]).magnitude().at_most(
            x[i].magnitude(),
        ) by {
            assert(dyadic(m, s).at_most(x[i].magnitude()));
        }
        lemma_square_sum_monotone(even, x, n);
    }
}

proof fn lemma_total_of_same(k: Seq<int>, v: int)
    requires
        forall|i: int| 0 <= i < k.len() ==> #[trigger] k[i] == v,
    ensures
        total(squares(k)) == k.len() * (v * v),
    decreases k.len(),
{
    if k.len() > 0 {
        lemma_total_of_same(k.drop_last(), v);
        assert(squares(k).drop_last() =~= squares(k.drop_last()));
        let n = k.len();
        assert((n - 1) * (v * v) + v * v == n * (v * v)) by (nonlinear_arith);
    } else {
        assert(0 * (v * v) == 0);
    }
}

/// The loudness of a frame of multiples is on the side of `m / 2^t` on which the mean of
/// the squares is.
#[verifier::rlimit(40)]
pub proof fn lemma_loudness_by_energy(x: Seq<Num>, k: Seq<int>, s: nat, m: nat, t: nat)
    requires
        0 < x.len() < 0x100_0000,
        are_multiples(x, k, s),
        2 * s <= 149,
        2 * t <= 149,
        total(squares(k)) < 0x100_0000,
        x.len() * (m * m) < 0x100_0000,
    ensures
        total(squares(k)) * pow2(2 * t) <= x.len() * (m * m) * pow2(2 * s)
            ==> root_mean_square(x).at_most(dyadic(m, t)),
        total(squares(k)) * pow2(2 * t) >= x.len() * (m * m) * pow2(2 * s) ==> dyadic(
            m,
            t,
        ).at_most(root_mean_square(x)),
{
    let n = x.len();
    assert(is_comparable_frame(x));
    lemma_square_sum_exact(x, k, s, n);
    assert(squares(k).take(n as int) =~= squares(k));
    lemma_level(n, m, t);
    lemma_loudness_by_sum(x, m, t);
    let sum = square_sum(x, n);
    let level = dyadic(n * (m * m), 2 * t);
    lemma_order_in_steps(sum, level);
    lemma_order_in_steps(level, sum);
    lemma_pow2_adds((149 - 2 * s) as nat, 2 * s);
    lemma_pow2_adds((149 - 2 * t) as nat, 2 * t);
    let (a, b) = (total(squares(k)), n * (m * m));
    let (p, q) = (pow2((149 - 2 * s) as nat) as int, pow2(2 * s) as int);
    let (g, h) = (pow2((149 - 2 * t) as nat) as int, pow2(2 * t) as int);
    lemma_pow2_pos((149 - 2 * s) as nat);
    lemma_pow2_pos(2 * s);
    lemma_pow2_pos((149 - 2 * t) as nat);
    lemma_pow2_pos(2 * t);
    // a / q against b / h, where p * q == g * h
    assert(a * h <= b * q ==> a * p <= b * g) by (nonlinear_arith)
        requires
            p * q == g * h,
            p > 0,
            q > 0,
            g > 0,
            h > 0,
    ;
    assert(a * h >= b * q ==> a * p >= b * g) by (nonlinear_arith)
        requires
            p * q == g * h,
            p > 0,
            q > 0,
            g > 0,
            h > 0,
    ;
}

/// The fraction `n / d` is on the side of `a / 2^s` on which it should be.
#[verifier::rlimit(40)]
pub proof fn lemma_fraction_between(n: nat, d: nat, a: nat, s: nat)
    requires
        0 < d < 0x100_0000,
        n < 0x100_0000,
        a * d < 0x100_0000,
        s <= 149,
    ensures
        is_number(dyadic(a, s)),
        binary32().holds(fraction32(n, d)),
        fraction32(n, d) !is Nan,
        !fraction32(n, d).negative(),
        a * d <= n * pow2(s) ==> dyadic(a, s).at_most(fraction32(n, d)),
        a * d >= n * pow2(s) ==> fraction32(n, d).at_most(dyadic(a, s)),
{
    let f = binary32();
    let u = one();
    assert(a <= a * d) by (nonlinear_arith)
        requires
            d >= 1,
            a >= 0,
    ;
    lemma_dyadic(a, s);
    lemma_dyadic(a * d, s);
    lemma_dyadic(n, 0);
    lemma_whole_is_dyadic(n);
    lemma_length(d);
    let (v, w, top) = (dyadic(a, s), whole32(d), dyadic(a * d, s));
    let p = pow2((149 - s) as nat) as int;
    let q = pow2(s) as int;
    lemma_pow2_adds((149 - s) as nat, s);
    lemma_pow2_pos((149 - s) as nat);
    assert((a * p) * (d * u) == ((a * d) * p) * u) by (nonlinear_arith);
    lemma_quot_exact(top, w, v);
    lemma_order_in_steps(top, whole32(n));
    lemma_order_in_steps(whole32(n), top);
    lemma_order_in_steps(v, quot32(top, w));
    lemma_order_in_steps(quot32(top, w), v);
    let b = a * d;
    assert((b <= n * q ==> b * p <= n * (p * q)) && (b >= n * q ==> b * p >= n * (p * q)))
        by (nonlinear_arith)
        requires
            p > 0,
    ;
    lemma_below_is_strict_order(f, whole32(n), whole32(n), whole32(n));
    lemma_quot_monotone(whole32(n), whole32(n), w);
    lemma_below_is_strict_order(f, v, quot32(top, w), fraction32(n, d));
    lemma_below_is_strict_order(f, fraction32(n, d), quot32(top, w), v);
    if top.at_most(whole32(n)) {
        lemma_quot_monotone(top, whole32(n), w);
    }
    if whole32(n).at_most(top) {
        lemma_quot_monotone(whole32(n), top, w);
    }
}

} // verus!
