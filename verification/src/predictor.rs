//! How well the forward coefficients predict a frame, where rounding changes nothing: no
//! other coefficients leave less of its energy.

use crate::correlation::{exact_products, is_unrounded, lemma_total_in_parts, steps, total};
use crate::equations::{
    apart, is_exact, is_exact_step, left_side, lemma_error_is_what_is_left,
    lemma_normal_equations, multiples, one, terms,
};
use crate::exact::{
    is_number, lemma_dyadic, lemma_order_in_steps, lemma_signs, lemma_size_zero,
    lemma_whole_is_dyadic,
};
use crate::laws::lemma_units_finer;
use crate::lpc::{
    autocorrelation, forward_sum, lemma_feedback_is_stable, lemma_levinson_durbin_len,
    levinson_durbin, reflection,
};
use crate::number::{binary32, diff32, prod32, sum32, whole32, Num};
use crate::rounding::{lemma_over_holds, lemma_round_holds};
use vstd::arithmetic::power2::{lemma_pow2_pos, pow2};
use vstd::prelude::*;

verus! {

/// Sample `n` of a frame that is silent before its start and behind its end.
pub open spec fn sample_at(x: Seq<int>, n: int) -> int {
    if 0 <= n < x.len() {
        x[n]
    } else {
        0
    }
}

/// A frame that starts `lag` samples late, the first `len` samples of it.
spec fn delayed(x: Seq<int>, lag: int, len: nat) -> Seq<int> {
    Seq::new(len, |n: int| sample_at(x, n - lag))
}

/// What the samples before a sample predict of it, term by term.
pub open spec fn predicted(x: Seq<int>, c: Seq<int>, n: int) -> Seq<int> {
    Seq::new(c.len(), |j: int| c[j] * sample_at(x, n - 1 - j))
}

/// The errors of a prediction with the coefficients `c`:
/// `x[n] + sum over j from 1 of c[j - 1] * x[n - j]`, for the first `len` samples.
pub open spec fn errors(x: Seq<int>, c: Seq<int>, len: nat) -> Seq<int> {
    Seq::new(len, |n: int| one() * sample_at(x, n) + total(predicted(x, c, n)))
}

/// The products of two sequences, item by item.
pub open spec fn products(s: Seq<int>, t: Seq<int>) -> Seq<int> {
    Seq::new(s.len(), |n: int| s[n] * t[n])
}

/// The energy that a prediction with the coefficients `c` leaves of a frame, without
/// rounding: the errors' squares from the first sample until the last has faded out, as a
/// multiple of the fourth power of the smallest 32-bit number.
pub open spec fn energy_left(x: Seq<Num>, c: Seq<Num>) -> int {
    let e = errors(multiples(x), multiples(c), x.len() + c.len());
    total(products(e, e))
}

/// Whether neither the autocorrelation of a frame nor the recursion on it is rounded.
pub open spec fn is_exactly_predicted(x: Seq<Num>, order: nat) -> bool {
    &&& forall|lag: nat| lag <= order ==> #[trigger] is_unrounded(x, order, lag)
    &&& is_exact(autocorrelation(x, order), order)
}

proof fn lemma_products_commute(s: Seq<int>, t: Seq<int>)
    requires
        s.len() == t.len(),
    ensures
        products(s, t) == products(t, s),
{
    assert forall|n: int| 0 <= n < s.len() implies #[trigger] products(s, t)[n] == products(
        t,
        s,
    )[n] by {
        assert(s[n] * t[n] == t[n] * s[n]) by (nonlinear_arith);
    }
    assert(products(s, t) =~= products(t, s));
}

/// A product with a sum of two sequences, the second weighted.
proof fn lemma_products_linear(s: Seq<int>, t: Seq<int>, u: Seq<int>, k: int, v: Seq<int>)
    requires
        s.len() == t.len() == u.len() == v.len(),
        forall|n: int| 0 <= n < s.len() ==> #[trigger] s[n] == t[n] + k * u[n],
    ensures
        total(products(s, v)) == total(products(t, v)) + k * total(products(u, v)),
    decreases s.len(),
{
    if s.len() > 0 {
        let (s0, t0, u0, v0) = (s.drop_last(), t.drop_last(), u.drop_last(), v.drop_last());
        lemma_products_linear(s0, t0, u0, k, v0);
        assert(products(s, v).drop_last() =~= products(s0, v0));
        assert(products(t, v).drop_last() =~= products(t0, v0));
        assert(products(u, v).drop_last() =~= products(u0, v0));
        let (a, b, c) = (t.last(), u.last(), v.last());
        assert(s.last() == a + k * b);
        let z = total(products(u0, v0));
        assert((a + k * b) * c == a * c + k * (b * c)) by (nonlinear_arith);
        assert(k * (z + b * c) == k * z + k * (b * c)) by (nonlinear_arith);
    } else {
        assert(k * 0 == 0);
    }
}

proof fn lemma_total_of_zeros(s: Seq<int>)
    requires
        forall|n: int| 0 <= n < s.len() ==> #[trigger] s[n] == 0,
    ensures
        total(s) == 0,
    decreases s.len(),
{
    if s.len() > 0 {
        lemma_total_of_zeros(s.drop_last());
    }
}

proof fn lemma_squares_not_negative(s: Seq<int>)
    ensures
        total(products(s, s)) >= 0,
    decreases s.len(),
{
    if s.len() > 0 {
        lemma_squares_not_negative(s.drop_last());
        assert(products(s, s).drop_last() =~= products(s.drop_last(), s.drop_last()));
        let a = s.last();
        assert(a * a >= 0) by (nonlinear_arith);
    }
}

/// Two delayed frames meet as often as their distance says.
proof fn lemma_delayed_products(x: Seq<Num>, i: nat, j: nat, len: nat)
    requires
        x.len() + i <= len,
        x.len() + j <= len,
    ensures
        total(products(delayed(multiples(x), i as int, len), delayed(multiples(x), j as int, len)))
            == total(exact_products(x, apart(i - j) as nat)),
    decreases if i < j {
        1int
    } else {
        0int
    },
{
    let v = multiples(x);
    let s = delayed(v, i as int, len);
    let t = delayed(v, j as int, len);
    if i < j {
        lemma_products_commute(s, t);
        lemma_delayed_products(x, j, i, len);
    } else {
        let lag = (i - j) as nat;
        let middle = exact_products(x, lag);
        let head = Seq::new(i, |n: int| 0int);
        let tail = Seq::new((len - i - middle.len()) as nat, |n: int| 0int);
        let whole = head + middle + tail;
        assert forall|n: int| 0 <= n < len implies #[trigger] products(s, t)[n] == whole[n] by {
            let k = n - i;
            if 0 <= k < middle.len() {
                let (a, b) = (steps(x[k]), steps(x[k + lag]));
                assert(s[n] == a && t[n] == b);
                assert(a * b == b * a) by (nonlinear_arith);
            } else {
                let (a, b) = (s[n], t[n]);
                assert(a == 0 || b == 0);
                assert(a * b == 0) by (nonlinear_arith)
                    requires
                        a == 0 || b == 0,
                ;
            }
        }
        assert(products(s, t) =~= whole);
        lemma_total_of_zeros(head);
        lemma_total_of_zeros(tail);
        lemma_total_in_parts(head, middle);
        lemma_total_in_parts(head + middle, tail);
    }
}

/// The autocorrelation that is not rounded is the exact sum.
proof fn lemma_unrounded(x: Seq<Num>, order: nat, lag: nat)
    requires
        lag <= order,
        is_unrounded(x, order, lag),
    ensures
        steps(autocorrelation(x, order)[lag as int]) * one() == total(exact_products(x, lag)),
{
    let y = binary32().min_exp();
    let v = autocorrelation(x, order)[lag as int];
    lemma_units_finer(v, y, 2 * y);
}

/// What the errors of a prediction have in common with the frame, `i` samples late, is the
/// left side of a normal equation.
#[verifier::rlimit(40)]
proof fn lemma_errors_meet_frame(
    x: Seq<Num>,
    order: nat,
    c: Seq<Num>,
    i: nat,
    len: nat,
)
    requires
        forall|lag: nat| lag <= order ==> #[trigger] is_unrounded(x, order, lag),
        c.len() <= order,
        i <= order,
        x.len() + c.len() <= len,
        x.len() + i <= len,
    ensures
        total(
            products(
                errors(multiples(x), multiples(c), len),
                delayed(multiples(x), i as int, len),
            ),
        ) == one() * left_side(autocorrelation(x, order), c, i as int),
    decreases c.len(),
{
    let v = multiples(x);
    let r = autocorrelation(x, order);
    let u = one();
    let late = delayed(v, i as int, len);
    let e = errors(v, multiples(c), len);
    let ri = steps(r[i as int]);
    if c.len() == 0 {
        let nothing = Seq::new(len, |n: int| 0int);
        let frame = delayed(v, 0, len);
        assert forall|n: int| 0 <= n < len implies #[trigger] e[n] == nothing[n] + u * frame[n] by {
            assert(predicted(v, multiples(c), n) =~= Seq::empty());
        }
        lemma_products_linear(e, nothing, frame, u, late);
        assert forall|n: int| 0 <= n < len implies #[trigger] products(nothing, late)[n] == 0 by {
            assert(0 * late[n] == 0);
        }
        lemma_total_of_zeros(products(nothing, late));
        lemma_delayed_products(x, 0, i, len);
        lemma_unrounded(x, order, i);
        assert(terms(multiples(r), multiples(c), i as int) =~= Seq::empty());
    } else {
        let m = c.len() - 1;
        let front = c.drop_last();
        let k = steps(c.last());
        let before = errors(v, multiples(front), len);
        let extra = delayed(v, c.len() as int, len);
        assert forall|n: int| 0 <= n < len implies #[trigger] e[n] == before[n] + k * extra[n] by {
            let p = predicted(v, multiples(c), n);
            assert(p.drop_last() =~= predicted(v, multiples(front), n));
            assert(p.last() == k * sample_at(v, n - 1 - m));
        }
        lemma_products_linear(e, before, extra, k, late);
        lemma_errors_meet_frame(x, order, front, i, len);
        lemma_delayed_products(x, c.len(), i, len);
        let d = apart(c.len() - i) as nat;
        lemma_unrounded(x, order, d);
        let t = terms(multiples(r), multiples(c), i as int);
        assert(t.drop_last() =~= terms(multiples(r), multiples(front), i as int));
        let w = steps(r[d as int]);
        assert(t.last() == k * w);
        let z = total(t.drop_last());
        assert(u * (ri * u + (z + k * w)) == u * (ri * u + z) + k * (w * u)) by (nonlinear_arith);
    }
}

/// What the errors of a prediction with the forward coefficients have in common with those
/// of any prediction.
#[verifier::rlimit(40)]
proof fn lemma_errors_meet_errors(x: Seq<Num>, order: nat, m: nat, c: Seq<Num>, len: nat)
    requires
        is_exactly_predicted(x, order),
        m <= order,
        c.len() <= m,
        x.len() + m <= len,
    ensures
        ({
            let solved = levinson_durbin(autocorrelation(x, order), m);
            total(
                products(
                    errors(multiples(x), multiples(c), len),
                    errors(multiples(x), multiples(solved.forward), len),
                ),
            ) == one() * (one() * (steps(solved.error) * one()))
        }),
    decreases c.len(),
{
    let v = multiples(x);
    let r = autocorrelation(x, order);
    let solved = levinson_durbin(r, m);
    lemma_levinson_durbin_len(r, m);
    assert(is_exact(r, m));
    let u = one();
    let best = errors(v, multiples(solved.forward), len);
    let e = errors(v, multiples(c), len);
    if c.len() == 0 {
        let nothing = Seq::new(len, |n: int| 0int);
        let frame = delayed(v, 0, len);
        assert forall|n: int| 0 <= n < len implies #[trigger] e[n] == nothing[n] + u * frame[n] by {
            assert(predicted(v, multiples(c), n) =~= Seq::empty());
        }
        lemma_products_linear(e, nothing, frame, u, best);
        assert forall|n: int| 0 <= n < len implies #[trigger] products(nothing, best)[n] == 0 by {
            assert(0 * best[n] == 0);
        }
        lemma_total_of_zeros(products(nothing, best));
        lemma_products_commute(frame, best);
        lemma_errors_meet_frame(x, order, solved.forward, 0, len);
        lemma_error_is_what_is_left(r, m);
    } else {
        let front = c.drop_last();
        let k = steps(c.last());
        let before = errors(v, multiples(front), len);
        let extra = delayed(v, c.len() as int, len);
        assert forall|n: int| 0 <= n < len implies #[trigger] e[n] == before[n] + k * extra[n] by {
            let p = predicted(v, multiples(c), n);
            assert(p.drop_last() =~= predicted(v, multiples(front), n));
            assert(p.last() == k * sample_at(v, n - c.len()));
        }
        lemma_products_linear(e, before, extra, k, best);
        lemma_errors_meet_errors(x, order, m, front, len);
        lemma_products_commute(extra, best);
        lemma_errors_meet_frame(x, order, solved.forward, c.len(), len);
        lemma_normal_equations(r, m, c.len() as int);
        assert(u * 0 == 0 && k * 0 == 0);
    }
}

/// The square of a difference.
proof fn lemma_difference_of_errors(s: Seq<int>, t: Seq<int>)
    requires
        s.len() == t.len(),
    ensures
        total(products(s, s)) - 2 * total(products(s, t)) + total(products(t, t)) >= 0,
{
    let d = Seq::new(s.len(), |n: int| s[n] + (-1) * t[n]);
    lemma_products_linear(d, s, t, -1, d);
    lemma_products_commute(s, d);
    lemma_products_commute(t, d);
    lemma_products_linear(d, s, t, -1, s);
    lemma_products_linear(d, s, t, -1, t);
    lemma_products_commute(s, t);
    lemma_squares_not_negative(d);
}

/// Where nothing is rounded, the error of the recursion is the energy that its forward
/// coefficients leave of the frame.
pub proof fn lemma_error_is_energy_left(x: Seq<Num>, order: nat)
    requires
        is_exactly_predicted(x, order),
    ensures
        ({
            let solved = levinson_durbin(autocorrelation(x, order), order);
            energy_left(x, solved.forward) == one() * (one() * (steps(solved.error) * one()))
        }),
{
    let solved = levinson_durbin(autocorrelation(x, order), order);
    lemma_levinson_durbin_len(autocorrelation(x, order), order);
    lemma_errors_meet_errors(x, order, order, solved.forward, x.len() + order);
}

/// Where nothing is rounded, the forward coefficients are the best of all: no others leave
/// less of the frame's energy.
pub proof fn lemma_prediction_is_best(x: Seq<Num>, order: nat, c: Seq<Num>)
    requires
        is_exactly_predicted(x, order),
        c.len() == order,
    ensures
        energy_left(x, levinson_durbin(autocorrelation(x, order), order).forward)
            <= energy_left(x, c),
{
    let len = x.len() + order;
    let solved = levinson_durbin(autocorrelation(x, order), order);
    lemma_levinson_durbin_len(autocorrelation(x, order), order);
    lemma_errors_meet_errors(x, order, order, c, len);
    lemma_errors_meet_errors(x, order, order, solved.forward, len);
    lemma_difference_of_errors(
        errors(multiples(x), multiples(c), len),
        errors(multiples(x), multiples(solved.forward), len),
    );
}

/// The energy that is left after any number of steps is not negative.
proof fn lemma_error_not_negative(x: Seq<Num>, order: nat, m: nat)
    requires
        is_exactly_predicted(x, order),
        m <= order,
    ensures
        steps(levinson_durbin(autocorrelation(x, order), m).error) >= 0,
{
    let len = x.len() + order;
    let r = autocorrelation(x, order);
    let solved = levinson_durbin(r, m);
    let u = one();
    let e = steps(solved.error);
    lemma_levinson_durbin_len(r, m);
    lemma_errors_meet_errors(x, order, m, solved.forward, len);
    lemma_squares_not_negative(errors(multiples(x), multiples(solved.forward), len));
    lemma_pow2_pos((-binary32().min_exp()) as nat);
    assert(e >= 0) by (nonlinear_arith)
        requires
            u * (u * (e * u)) >= 0,
            u > 0,
    ;
}

/// Where nothing is rounded, every feedback coefficient lies between -1 and 1, and strictly
/// so where the step leaves an error; and no step leaves more of the energy than there was,
/// nor less than nothing.
#[verifier::rlimit(40)]
pub proof fn lemma_feedback_within_one(x: Seq<Num>, order: nat, i: nat)
    requires
        is_exactly_predicted(x, order),
        i < order,
    ensures
        ({
            let r = autocorrelation(x, order);
            let k = levinson_durbin(r, order).feedback[i as int];
            &&& k.magnitude().at_most(whole32(1))
            &&& !levinson_durbin(r, i + 1).error.is_zero() ==> k.magnitude().below(whole32(1))
            &&& 0 <= steps(levinson_durbin(r, i + 1).error) <= steps(levinson_durbin(r, i).error)
        }),
{
    let f = binary32();
    let y = f.min_exp();
    let r = autocorrelation(x, order);
    let before = levinson_durbin(r, i);
    let after = levinson_durbin(r, i + 1);
    lemma_levinson_durbin_len(r, i);
    lemma_levinson_durbin_len(r, i + 1);
    lemma_levinson_durbin_len(r, order);
    lemma_feedback_is_stable(r, i + 1, order);
    let k = after.feedback.last();
    assert(levinson_durbin(r, order).feedback.take((i + 1) as int)[i as int] == k);
    assert(is_exact_step(r, before, after));
    assert(after.forward[i as int] == k);
    lemma_error_not_negative(x, order, i);
    lemma_error_not_negative(x, order, i + 1);
    let u = one();
    lemma_pow2_pos((-y) as nat);
    let kk = steps(k);
    let e = steps(before.error);
    let g = steps(after.error);
    lemma_error_is_a_number(x, order, i);
    lemma_error_is_a_number(x, order, i + 1);
    lemma_zero_steps(before.error);
    lemma_zero_steps(after.error);
    assert(!before.error.is_zero());
    assert(kk * kk <= u * u && g <= e && (g > 0 ==> kk * kk < u * u)) by (nonlinear_arith)
        requires
            g * (u * u) == e * (u * u - kk * kk),
            e > 0,
            g >= 0,
            u > 0,
    ;
    lemma_over_holds(
        f,
        sum32(r[i as int + 1], forward_sum(r, before.forward, i, i)).minus(),
        before.error,
    );
    lemma_size_of_square(k);
}

/// A number whose square is at most one, or below it, is so itself.
proof fn lemma_size_of_square(k: Num)
    requires
        is_number(k),
    ensures
        steps(k) * steps(k) <= one() * one() ==> k.magnitude().at_most(whole32(1)),
        steps(k) * steps(k) < one() * one() ==> k.magnitude().below(whole32(1)),
{
    let y = binary32().min_exp();
    let (u, kk) = (one(), steps(k));
    lemma_pow2_pos(149);
    lemma_signs(k);
    lemma_size_zero(k, y);
    lemma_whole_is_dyadic(1);
    lemma_dyadic(1, 0);
    lemma_order_in_steps(k.magnitude(), whole32(1));
    let size = steps(k.magnitude());
    assert((kk * kk <= u * u ==> size <= u) && (kk * kk < u * u ==> size < u)) by (nonlinear_arith)
        requires
            size == kk || size == -kk,
            size >= 0,
            u > 0,
    ;
}

/// The error is finite and a 32-bit number at every step.
proof fn lemma_error_is_a_number(x: Seq<Num>, order: nat, m: nat)
    requires
        is_exactly_predicted(x, order),
        m <= order,
    ensures
        levinson_durbin(autocorrelation(x, order), m).error is Finite,
        levinson_durbin(autocorrelation(x, order), m).error->Finite_exp >= binary32().min_exp(),
{
    let r = autocorrelation(x, order);
    if m == 0 {
        assert(is_unrounded(x, order, 0));
    } else {
        let l = (m - 1) as nat;
        let before = levinson_durbin(r, l);
        assert(is_exact_step(r, before, levinson_durbin(r, l + 1)));
        let k = reflection(r, before.forward, l, before.error);
        let a = before.error;
        let b = diff32(whole32(1), prod32(k, k));
        if a is Finite && b is Finite {
            lemma_round_holds(
                binary32(),
                a.negative() != b.negative(),
                a->mant * b->mant,
                a->Finite_exp + b->Finite_exp,
                false,
            );
        }
    }
}

/// Only zero is zero times the smallest number.
proof fn lemma_zero_steps(v: Num)
    requires
        v is Finite,
        v->Finite_exp >= binary32().min_exp(),
    ensures
        steps(v) == 0 <==> v.is_zero(),
{
    let d = pow2((v->Finite_exp - binary32().min_exp()) as nat);
    lemma_pow2_pos((v->Finite_exp - binary32().min_exp()) as nat);
    assert(v->mant == 0 <==> v->mant * d == 0) by (nonlinear_arith)
        requires
            d > 0,
    ;
}

} // verus!
