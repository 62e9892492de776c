//! What windowing and pre-emphasis do to a frame, in numbers.

use crate::analysis::hamming_window;
use crate::correlation::steps;
use crate::equations::one;
use crate::exact::{
    dyadic, is_number, lemma_diff_exact, lemma_dyadic, lemma_order_in_steps, lemma_prod_against,
    lemma_prod_exact, lemma_prod_monotone, lemma_quot_exact, lemma_quot_monotone,
    lemma_rank_of_times, lemma_signs, lemma_sum_against, lemma_sum_exact, lemma_whole_is_dyadic,
};
use crate::float::lemma_encoding_units;
use crate::laws::{lemma_commutative, lemma_plus_monotone, lemma_plus_zero};
use crate::loudness::lemma_fraction_between;
use crate::lpc::{hamming_angle_of, pi32, shaped};
use crate::number::{binary32, diff32, fraction32, prod32, quot32, sum32, whole32, zero32, Num};
use crate::order::lemma_below_is_strict_order;
use crate::rounding::lemma_plus_holds;
use vstd::arithmetic::power2::{lemma2_to64, lemma_pow2_adds, lemma_pow2_pos, pow2};
use vstd::prelude::*;

verus! {

/// A fraction below one is a number above zero.
proof fn lemma_proper_fraction(n: nat, d: nat, low: nat, high: nat)
    requires
        0 < n < d <= 100,
        0 < low <= high <= 1024,
        low * d <= n * 1024,
        high * d >= n * 1024,
    ensures
        is_number(fraction32(n, d)),
        !fraction32(n, d).is_zero(),
        !fraction32(n, d).negative(),
        steps(fraction32(n, d)) > 0,
        low * pow2(139) <= steps(fraction32(n, d)) <= high * pow2(139),
{
    let f = binary32();
    lemma2_to64();
    assert(low * d <= 1024 * 100 && high * d <= 1024 * 100) by (nonlinear_arith)
        requires
            low <= 1024,
            high <= 1024,
            d <= 100,
    ;
    lemma_fraction_between(n, d, low, 10);
    lemma_fraction_between(n, d, high, 10);
    lemma_dyadic(low, 10);
    lemma_dyadic(high, 10);
    let v = fraction32(n, d);
    if v is Infinite {
        assert(dyadic(high, 10).below(v));
    }
    lemma_order_in_steps(dyadic(low, 10), v);
    lemma_order_in_steps(v, dyadic(high, 10));
    lemma_pow2_pos(139);
    let p = pow2(139) as int;
    assert(low * p > 0) by (nonlinear_arith)
        requires
            low > 0,
            p > 0,
    ;
    if v.is_zero() {
        crate::exact::lemma_size_zero(v, f.min_exp());
    }
}

/// The parts of the window's formula.
proof fn lemma_parts()
    ensures
        is_number(fraction32(54, 100)),
        is_number(fraction32(46, 100)),
        !fraction32(54, 100).negative(),
        !fraction32(46, 100).negative(),
        !fraction32(54, 100).is_zero(),
        !fraction32(46, 100).is_zero(),
        552 * pow2(139) <= steps(fraction32(54, 100)) <= 553 * pow2(139),
        471 * pow2(139) <= steps(fraction32(46, 100)) <= 472 * pow2(139),
        steps(fraction32(46, 100)) > 0,
{
    lemma_proper_fraction(54, 100, 552, 553);
    lemma_proper_fraction(46, 100, 471, 472);
}

/// Multiplying by one, of either sign, changes no digit.
proof fn lemma_times_one(v: Num)
    requires
        is_number(v),
        !v.is_zero(),
    ensures
        prod32(v, whole32(1)) == v,
        prod32(v, whole32(1).minus()) == v.minus(),
        is_number(whole32(1)),
        steps(whole32(1)) == one(),
{
    lemma_whole_is_dyadic(1);
    lemma_dyadic(1, 0);
    lemma_signs(v);
    lemma_signs(whole32(1));
    lemma_prod_exact(v, whole32(1), v);
    let (s, u) = (steps(v), one());
    assert(s * (-u) == (-s) * u) by (nonlinear_arith);
    lemma_prod_exact(v, whole32(1).minus(), v.minus());
}

/// A window fades a frame out towards its edges. Where the cosine of a coefficient's angle
/// is 1, at the edges, the coefficient is 0.54 - 0.46, about 0.08; where the cosine is -1,
/// in the middle, it is 0.54 + 0.46, about 1; where it is 0, it is 0.54; and of two
/// coefficients the one with the larger cosine is not the larger.
#[verifier::rlimit(40)]
pub proof fn lemma_window_fades(cosines: Seq<Num>, i: int, j: int)
    requires
        0 <= i < cosines.len(),
        0 <= j < cosines.len(),
        is_number(cosines[i]),
        is_number(cosines[j]),
    ensures
        hamming_window(cosines).len() == cosines.len(),
        cosines[i] == whole32(1) ==> hamming_window(cosines)[i] == diff32(
            fraction32(54, 100),
            fraction32(46, 100),
        ),
        cosines[i] == whole32(1).minus() ==> hamming_window(cosines)[i] == sum32(
            fraction32(54, 100),
            fraction32(46, 100),
        ),
        cosines[i].is_zero() ==> hamming_window(cosines)[i] == fraction32(54, 100),
        cosines[i] == whole32(1) ==> dyadic(80, 10).at_most(hamming_window(cosines)[i])
            && hamming_window(cosines)[i].at_most(dyadic(82, 10)),
        cosines[i] == whole32(1).minus() ==> dyadic(1023, 10).at_most(hamming_window(cosines)[i])
            && hamming_window(cosines)[i].at_most(dyadic(1025, 10)),
        cosines[i].at_most(cosines[j]) ==> hamming_window(cosines)[j].at_most(
            hamming_window(cosines)[i],
        ),
{
    let f = binary32();
    let a = fraction32(54, 100);
    let b = fraction32(46, 100);
    let (c, d) = (cosines[i], cosines[j]);
    lemma_parts();
    lemma_times_one(b);
    lemma_signs(b);
    assert(b.minus().minus() == b);
    if c == whole32(1) {
        lemma_sum_between(a, b.minus(), 552, 553, -472, -471, 80, 82);
    }
    if c == whole32(1).minus() {
        lemma_sum_between(a, b, 552, 553, 471, 472, 1023, 1025);
    }
    if c.is_zero() {
        let p = prod32(b, c);
        assert(p.is_zero()) by {
            assert(b->mant * 0 == 0) by (nonlinear_arith);
        }
        assert(p.minus() == f.zero(p.minus().negative()));
        lemma_plus_zero(f, a, p.minus().negative());
    }
    if c.at_most(d) {
        lemma_rank_of_times(b, c);
        lemma_rank_of_times(b, d);
        lemma_prod_monotone(b, c, d);
        lemma_taking_more(a, prod32(b, c), prod32(b, d));
    }
}

/// A sum of two numbers between bounds lies between the sums of the bounds.
proof fn lemma_sum_between(
    a: Num,
    b: Num,
    low: int,
    high: int,
    lower: int,
    higher: int,
    least: nat,
    most: nat,
)
    requires
        is_number(a),
        is_number(b),
        low * pow2(139) <= steps(a) <= high * pow2(139),
        lower * pow2(139) <= steps(b) <= higher * pow2(139),
        0 <= low <= high <= 1024,
        -1024 <= lower <= higher <= 1024,
        low + lower == least,
        high + higher == most,
    ensures
        dyadic(least, 10).at_most(sum32(a, b)),
        sum32(a, b).at_most(dyadic(most, 10)),
{
    let f = binary32();
    let p = pow2(139) as int;
    lemma_bound(a, b, low, lower, least);
    lemma_bound(a, b, high, higher, most);
}

/// One bound of such a sum.
#[verifier::rlimit(40)]
proof fn lemma_bound(a: Num, b: Num, n: int, m: int, t: nat)
    requires
        is_number(a),
        is_number(b),
        0 <= n <= 1024,
        -1024 <= m <= 1024,
        n + m == t,
    ensures
        n * pow2(139) <= steps(a) && m * pow2(139) <= steps(b) ==> dyadic(t, 10).at_most(
            sum32(a, b),
        ),
        n * pow2(139) >= steps(a) && m * pow2(139) >= steps(b) ==> sum32(a, b).at_most(
            dyadic(t, 10),
        ),
{
    let f = binary32();
    let p = pow2(139) as int;
    lemma_dyadic(n as nat, 10);
    lemma_dyadic(t, 10);
    let c = dyadic(n as nat, 10);
    let d = if m >= 0 {
        dyadic(m as nat, 10)
    } else {
        dyadic((-m) as nat, 10).minus()
    };
    if m >= 0 {
        lemma_dyadic(m as nat, 10);
    } else {
        lemma_dyadic((-m) as nat, 10);
        lemma_signs(dyadic((-m) as nat, 10));
        assert(-((-m) * p) == m * p) by (nonlinear_arith);
    }
    assert(n * p + m * p == t * p) by (nonlinear_arith)
        requires
            n + m == t,
    ;
    lemma_sum_exact(c, d, dyadic(t, 10));
    lemma_order_in_steps(dyadic(t, 10), sum32(c, d));
    lemma_order_in_steps(sum32(c, d), dyadic(t, 10));
    lemma_order_in_steps(a, c);
    lemma_order_in_steps(c, a);
    lemma_order_in_steps(b, d);
    lemma_order_in_steps(d, b);
    lemma_plus_holds(f, a, b);
    lemma_plus_holds(f, a, d);
    lemma_plus_holds(f, c, d);
    lemma_commutative(f, a, b);
    lemma_commutative(f, a, d);
    if c.at_most(a) && d.at_most(b) {
        lemma_plus_monotone(f, c, a, d);
        lemma_plus_monotone(f, d, b, a);
        lemma_below_is_strict_order(f, sum32(c, d), sum32(a, d), sum32(a, b));
        lemma_below_is_strict_order(f, dyadic(t, 10), sum32(c, d), sum32(a, b));
    }
    if a.at_most(c) && b.at_most(d) {
        lemma_plus_monotone(f, a, c, d);
        lemma_plus_monotone(f, b, d, a);
        lemma_below_is_strict_order(f, sum32(a, b), sum32(a, d), sum32(c, d));
        lemma_below_is_strict_order(f, sum32(a, b), sum32(c, d), dyadic(t, 10));
    }
}

/// The order of two numbers turns round with their signs.
proof fn lemma_minus_turns_order(a: Num, b: Num)
    requires
        binary32().holds(a),
        binary32().holds(b),
        a.at_most(b),
    ensures
        binary32().holds(a.minus()),
        binary32().holds(b.minus()),
        b.minus().at_most(a.minus()),
{
    if a is Finite && b is Finite {
        lemma_signs(a);
        lemma_signs(b);
        lemma_order_in_steps(a, b);
        lemma_order_in_steps(b.minus(), a.minus());
    }
}

/// Taking more leaves less.
proof fn lemma_taking_more(a: Num, p: Num, q: Num)
    requires
        is_number(a),
        binary32().holds(p),
        binary32().holds(q),
        p.at_most(q),
    ensures
        diff32(a, q).at_most(diff32(a, p)),
{
    let f = binary32();
    lemma_minus_turns_order(p, q);
    lemma_commutative(f, a, p.minus());
    lemma_commutative(f, a, q.minus());
    lemma_plus_monotone(f, q.minus(), p.minus(), a);
}

/// Windowing and pre-emphasis are local: a sample after them rests on the sample, the one
/// before it and the window's coefficient there.
pub proof fn lemma_shaping_is_local(
    x: Seq<Num>,
    window: Seq<Num>,
    y: Seq<Num>,
    other: Seq<Num>,
    i: int,
    j: int,
)
    requires
        0 < i < x.len(),
        0 < j < y.len(),
        x[i] == y[j],
        x[i - 1] == y[j - 1],
        window[i] == other[j],
    ensures
        shaped(x, window).len() == x.len(),
        shaped(x, window)[i] == shaped(y, other)[j],
{
}

/// The first sample, and every one behind a zero, is only weighted; what a sample leaves in
/// the place of a zero behind it is 0.97 times as large, turned round and weighted.
pub proof fn lemma_shape_of_an_impulse(x: Seq<Num>, window: Seq<Num>, i: int)
    requires
        0 <= i < x.len(),
        is_number(x[i]),
        !x[i].is_zero(),
    ensures
        i == 0 || x[i - 1].is_zero() && is_number(x[i - 1]) ==> shaped(x, window)[i] == prod32(
            x[i],
            window[i],
        ),
        i + 1 < x.len() && x[i + 1] == zero32() && !prod32(
            fraction32(97, 100),
            x[i],
        ).is_zero() ==> shaped(x, window)[i + 1] == prod32(
            prod32(fraction32(97, 100), x[i]).minus(),
            window[i + 1],
        ),
{
    let f = binary32();
    let k = fraction32(97, 100);
    lemma_proper_fraction(97, 100, 993, 994);
    if i > 0 && x[i - 1].is_zero() && is_number(x[i - 1]) {
        let p = prod32(k, x[i - 1]);
        assert(p.is_zero()) by {
            assert(k->mant * 0 == 0) by (nonlinear_arith);
        }
        assert(p.minus() == f.zero(p.minus().negative()));
        lemma_plus_zero(f, x[i], p.minus().negative());
    }
    if i + 1 < x.len() && x[i + 1] == zero32() && !prod32(k, x[i]).is_zero() {
        let p = prod32(k, x[i]);
        lemma_rank_of_times(k, x[i]);
        lemma_plus_zero(f, p.minus(), false);
        lemma_commutative(f, p.minus(), zero32());
    }
}

/// Multiplying both sides by the same number above zero keeps the order, infinite numbers
/// included.
proof fn lemma_weight_monotone(w: Num, a: Num, b: Num)
    requires
        is_number(w),
        steps(w) > 0,
        binary32().holds(a),
        binary32().holds(b),
        a.at_most(b),
    ensures
        prod32(a, w).at_most(prod32(b, w)),
{
    let f = binary32();
    crate::exact::lemma_size_zero(w, f.min_exp());
    lemma_commutative(f, a, w);
    lemma_commutative(f, b, w);
    if a is Finite && b is Finite {
        lemma_prod_monotone(w, a, b);
    } else {
        if a is Finite {
            lemma_rank_of_times(a, w);
        }
        if b is Finite {
            lemma_rank_of_times(b, w);
        }
    }
}

/// A sample after windowing and pre-emphasis rises with the sample and falls with the one
/// before it, where the window's coefficient is above zero.
#[verifier::rlimit(40)]
pub proof fn lemma_shaping_rises_and_falls(
    x: Seq<Num>,
    y: Seq<Num>,
    window: Seq<Num>,
    i: int,
)
    requires
        0 < i < x.len(),
        x.len() == y.len(),
        is_number(window[i]),
        zero32().below(window[i]),
        is_number(x[i]),
        is_number(x[i - 1]),
        is_number(y[i]),
        is_number(y[i - 1]),
        x[i].at_most(y[i]),
        y[i - 1].at_most(x[i - 1]),
    ensures
        shaped(x, window)[i].at_most(shaped(y, window)[i]),
{
    let f = binary32();
    let k = fraction32(97, 100);
    lemma_proper_fraction(97, 100, 993, 994);
    let (p, q) = (prod32(k, x[i - 1]), prod32(k, y[i - 1]));
    lemma_rank_of_times(k, x[i - 1]);
    lemma_rank_of_times(k, y[i - 1]);
    lemma_prod_monotone(k, y[i - 1], x[i - 1]);
    let (a, b) = (x[i], y[i]);
    lemma_taking_more(a, q, p);
    lemma_minus_turns_order(q, p);
    lemma_plus_monotone(f, a, b, q.minus());
    lemma_plus_holds(f, a, p.minus());
    lemma_plus_holds(f, a, q.minus());
    lemma_plus_holds(f, b, q.minus());
    lemma_below_is_strict_order(f, diff32(a, p), diff32(a, q), diff32(b, q));
    lemma_zero_is_a_number();
    lemma_order_in_steps(zero32(), window[i]);
    lemma_weight_monotone(window[i], diff32(a, p), diff32(b, q));
}

/// Pre-emphasis takes about 0.97 of the sample before from a sample: where `v` is no more
/// than 993/1024 of a sample that is not below zero, what is left of the next one is at most
/// any `b` that it less `v` does not exceed, and the other way round with 994/1024. This is
/// seen where the window's coefficient is 1.
#[verifier::rlimit(40)]
pub proof fn lemma_emphasis_in_numbers(x: Seq<Num>, window: Seq<Num>, i: int, v: Num, b: Num)
    requires
        0 < i < x.len(),
        is_number(x[i]),
        is_number(x[i - 1]),
        is_number(v),
        is_number(b),
        steps(x[i - 1]) >= 0,
        window[i] == whole32(1),
    ensures
        1024 * steps(v) <= 993 * steps(x[i - 1]) && steps(b) >= steps(x[i]) - steps(v)
            ==> shaped(x, window)[i].at_most(b),
        1024 * steps(v) >= 994 * steps(x[i - 1]) && steps(b) <= steps(x[i]) - steps(v)
            ==> b.at_most(shaped(x, window)[i]),
{
    let f = binary32();
    let k = fraction32(97, 100);
    let (a, c) = (x[i], x[i - 1]);
    let p = prod32(k, c);
    let e = diff32(a, p);
    let w = whole32(1);
    lemma_proper_fraction(97, 100, 993, 994);
    lemma_prod_against(k, c, v);
    lemma2_to64();
    lemma_pow2_adds(139, 10);
    lemma_pow2_pos(139);
    let (d, sk, sc, sv) = (pow2(139) as int, steps(k), steps(c), steps(v));
    assert(1024 * sv <= 993 * sc ==> sv * (d * 1024) <= sk * sc) by (nonlinear_arith)
        requires
            993 * d <= sk,
            sc >= 0,
            d > 0,
    ;
    assert(1024 * sv >= 994 * sc ==> sv * (d * 1024) >= sk * sc) by (nonlinear_arith)
        requires
            994 * d >= sk,
            sc >= 0,
            d > 0,
    ;
    lemma_signs(v);
    lemma_sum_against(a, v.minus(), b);
    lemma_below_is_strict_order(f, p, p, p);
    lemma_minus_turns_order(p, p);
    lemma_plus_holds(f, a, p.minus());
    lemma_whole_is_dyadic(1);
    lemma_dyadic(1, 0);
    lemma_pow2_pos(149);
    lemma_prod_exact(b, w, b);
    lemma_order_in_steps(prod32(b, w), b);
    lemma_order_in_steps(b, prod32(b, w));
    let (le, lb) = (prod32(e, w), prod32(b, w));
    let rest = diff32(a, v);
    if v.at_most(p) && rest.at_most(b) {
        lemma_taking_more(a, v, p);
        lemma_below_is_strict_order(f, e, rest, b);
        lemma_weight_monotone(w, e, b);
        lemma_weighted(e);
        lemma_below_is_strict_order(f, le, lb, b);
    }
    if p.at_most(v) && b.at_most(rest) {
        lemma_taking_more(a, p, v);
        lemma_below_is_strict_order(f, b, rest, e);
        lemma_weight_monotone(w, b, e);
        lemma_weighted(e);
        lemma_below_is_strict_order(f, b, lb, le);
    }
}

/// A number times one is a 32-bit number, or infinite.
proof fn lemma_weighted(e: Num)
    requires
        binary32().holds(e),
    ensures
        binary32().holds(prod32(e, whole32(1))),
{
    lemma_whole_is_dyadic(1);
    lemma_dyadic(1, 0);
    if e is Finite {
        lemma_rank_of_times(e, whole32(1));
    }
}

proof fn lemma_zero_is_a_number()
    ensures
        is_number(zero32()),
        steps(zero32()) == 0,
{
    lemma_dyadic(0, 0);
    assert(dyadic(0, 0) == zero32());
    assert(0 * pow2(149) == 0);
}

/// The ratio of a circle's circumference to its diameter lies between 12867/4096 and
/// 12868/4096.
pub proof fn lemma_pi_in_numbers()
    ensures
        is_number(pi32()),
        !pi32().negative(),
        dyadic(12867, 12).at_most(pi32()),
        pi32().at_most(dyadic(12868, 12)),
        steps(pi32()) == 13176795 * pow2(127),
{
    lemma_encoding_units();
    lemma2_to64();
    assert(pi32() == Num::Finite { neg: false, mant: 13176795, exp: -22 });
    lemma_dyadic(12867, 12);
    lemma_dyadic(12868, 12);
    lemma_pow2_adds(127, 10);
    lemma_pow2_pos(127);
    lemma_order_in_steps(dyadic(12867, 12), pi32());
    lemma_order_in_steps(pi32(), dyadic(12868, 12));
}

/// The digits of that ratio and of a whole turn.
pub(crate) proof fn lemma_turn_digits()
    ensures
        pi32() == (Num::Finite { neg: false, mant: 13176795, exp: -22 }),
        prod32(whole32(2), pi32()) == (Num::Finite { neg: false, mant: 13176795, exp: -21 }),
{
    lemma_encoding_units();
    lemma2_to64();
    lemma_pi_in_numbers();
    lemma_whole_is_dyadic(2);
    lemma_dyadic(2, 0);
    let turn = Num::Finite { neg: false, mant: 13176795, exp: -21 };
    lemma_pow2_adds(127, 1);
    let p = pow2(127) as int;
    let u = one();
    assert((2 * u) * (13176795 * p) == (13176795 * (p * 2)) * u) by (nonlinear_arith);
    lemma_prod_exact(whole32(2), pi32(), turn);
}

/// A whole turn is twice that ratio, without rounding.
pub proof fn lemma_turn_in_numbers()
    ensures
        is_number(prod32(whole32(2), pi32())),
        !prod32(whole32(2), pi32()).negative(),
        !prod32(whole32(2), pi32()).is_zero(),
        steps(prod32(whole32(2), pi32())) == 13176795 * pow2(128),
{
    lemma2_to64();
    lemma_turn_digits();
}

/// The angle of coefficient `i` of a window of `n` is the fraction `i / (n - 1)` of a whole
/// turn, which is between 25735/4096 and 25736/4096: it is on the side of `b / 4096` on
/// which such a fraction is.
#[verifier::rlimit(40)]
pub proof fn lemma_angle_in_numbers(i: nat, n: nat, b: nat)
    requires
        1 < n <= 600,
        i <= n,
        b * (n - 1) < 0x100_0000,
    ensures
        b * (n - 1) <= 25735 * i ==> dyadic(b, 12).at_most(hamming_angle_of(i, n)),
        b * (n - 1) >= 25736 * i ==> hamming_angle_of(i, n).at_most(dyadic(b, 12)),
{
    let f = binary32();
    let d = (n - 1) as nat;
    let turn = prod32(whole32(2), pi32());
    let u = one();
    lemma_turn_in_numbers();
    lemma2_to64();
    lemma_whole_is_dyadic(i);
    lemma_dyadic(i, 0);
    lemma_whole_is_dyadic(n);
    lemma_dyadic(n, 0);
    lemma_whole_is_dyadic(1);
    lemma_dyadic(1, 0);
    lemma_whole_is_dyadic(d);
    lemma_dyadic(d, 0);
    assert(n * u - 1 * u == d * u) by (nonlinear_arith)
        requires
            d == n - 1,
    ;
    lemma_diff_exact(whole32(n), whole32(1), whole32(d));
    let span = diff32(whole32(n), whole32(1));
    assert(span == whole32(d));
    let top = prod32(turn, whole32(i));
    lemma_rank_of_times(turn, whole32(i));
    assert(!top.negative());
    assert(b <= b * d) by (nonlinear_arith)
        requires
            d >= 1,
            b >= 0,
    ;
    lemma_dyadic(b, 12);
    lemma_dyadic(b * d, 12);
    let level = dyadic(b * d, 12);
    let h = pow2(137) as int;
    assert((b * h) * (d * u) == ((b * d) * h) * u) by (nonlinear_arith);
    lemma_quot_exact(level, span, dyadic(b, 12));
    lemma_order_in_steps(dyadic(b, 12), quot32(level, span));
    lemma_order_in_steps(quot32(level, span), dyadic(b, 12));
    lemma_turns(i, 25735);
    lemma_turns(i, 25736);
    lemma_dyadic(25735 * i, 12);
    lemma_dyadic(25736 * i, 12);
    lemma_pow2_pos(137);
    lemma_below_is_strict_order(f, top, top, top);
    lemma_quot_monotone(top, top, span);
    lemma_below_is_strict_order(f, dyadic(b, 12), quot32(level, span), quot32(top, span));
    lemma_below_is_strict_order(f, quot32(top, span), quot32(level, span), dyadic(b, 12));
    if b * d <= 25735 * i {
        lemma_order_in_steps(level, dyadic(25735 * i, 12));
        assert((b * d) * h <= (25735 * i) * h) by (nonlinear_arith)
            requires
                b * d <= 25735 * i,
                h > 0,
        ;
        lemma_below_is_strict_order(f, level, dyadic(25735 * i, 12), top);
        lemma_quot_monotone(level, top, span);
    }
    if b * d >= 25736 * i {
        lemma_order_in_steps(dyadic(25736 * i, 12), level);
        assert((b * d) * h >= (25736 * i) * h) by (nonlinear_arith)
            requires
                b * d >= 25736 * i,
                h > 0,
        ;
        lemma_below_is_strict_order(f, top, dyadic(25736 * i, 12), level);
        lemma_quot_monotone(top, level, span);
    }
}

/// Some turns, against `c / 4096` times as many.
#[verifier::rlimit(40)]
proof fn lemma_turns(i: nat, c: nat)
    requires
        i <= 600,
        c == 25735 || c == 25736,
    ensures
        c == 25735 ==> dyadic(c * i, 12).at_most(
            prod32(prod32(whole32(2), pi32()), whole32(i)),
        ),
        c == 25736 ==> prod32(prod32(whole32(2), pi32()), whole32(i)).at_most(
            dyadic(c * i, 12),
        ),
{
    let f = binary32();
    let turn = prod32(whole32(2), pi32());
    let u = one();
    lemma_turn_in_numbers();
    lemma2_to64();
    lemma_whole_is_dyadic(i);
    lemma_dyadic(i, 0);
    lemma_dyadic(c, 12);
    assert(c * i <= 25736 * 600) by (nonlinear_arith)
        requires
            c <= 25736,
            i <= 600,
    ;
    lemma_dyadic(c * i, 12);
    let level = dyadic(c, 12);
    let h = pow2(137) as int;
    lemma_pow2_adds(128, 9);
    lemma_pow2_pos(128);
    assert((i * u) * (c * h) == ((c * i) * h) * u) by (nonlinear_arith);
    lemma_prod_exact(whole32(i), level, dyadic(c * i, 12));
    lemma_order_in_steps(dyadic(c * i, 12), prod32(whole32(i), level));
    lemma_order_in_steps(prod32(whole32(i), level), dyadic(c * i, 12));
    lemma_commutative(f, turn, whole32(i));
    lemma_rank_of_times(whole32(i), turn);
    lemma_pow2_pos(149);
    assert(i * u >= 0) by (nonlinear_arith)
        requires
            u > 0,
            i >= 0,
    ;
    lemma_order_in_steps(level, turn);
    lemma_order_in_steps(turn, level);
    let q = prod32(whole32(i), level);
    let top = prod32(whole32(i), turn);
    if c == 25735 {
        lemma_prod_monotone(whole32(i), level, turn);
        lemma_below_is_strict_order(f, dyadic(c * i, 12), q, top);
    } else {
        lemma_prod_monotone(whole32(i), turn, level);
        lemma_below_is_strict_order(f, top, q, dyadic(c * i, 12));
    }
}

} // verus!
