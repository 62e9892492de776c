//! What holds of the autocorrelation of a frame: always, and where rounding changes none of
//! its values.

use crate::laws::lemma_below_in_units;
use crate::lpc::{autocorrelation, is_silent, lag_sum};
use crate::number::{binary32, common_exp, prod32, sum32, units, zero32, Num};
use crate::rounding::{lemma_append_none, lemma_plus_holds, lemma_round_holds};
use vstd::arithmetic::power2::{lemma_pow2_pos, pow2};
use vstd::prelude::*;

verus! {

/// The autocorrelation of a silent frame is zero at every lag.
pub proof fn lemma_silence_is_uncorrelated(x: Seq<Num>, order: nat)
    requires
        is_silent(x),
    ensures
        forall|lag: int| 0 <= lag <= order ==> #[trigger] autocorrelation(x, order)[lag] == zero32(),
{
    assert forall|lag: int| 0 <= lag <= order implies #[trigger] autocorrelation(x, order)[lag]
        == zero32() by {
        lemma_silent_lag_sum(x, lag as nat, x.len());
    }
}

proof fn lemma_silent_lag_sum(x: Seq<Num>, lag: nat, end: nat)
    requires
        is_silent(x),
        end <= x.len(),
    ensures
        lag_sum(x, lag, end) == zero32(),
    decreases end,
{
    if end > lag {
        lemma_silent_lag_sum(x, lag, (end - 1) as nat);
        let a = x[end - 1];
        let b = x[end - 1 - lag];
        assert(a.is_zero() && b.is_zero());
        assert(a->mant * b->mant == 0) by (nonlinear_arith)
            requires
                a->mant == 0,
        ;
        assert(prod32(a, b).is_zero());
        lemma_append_none(0);
        assert(sum32(zero32(), prod32(a, b)) == zero32());
    }
}

/// A frame with every sign turned round.
pub open spec fn inverted(x: Seq<Num>) -> Seq<Num> {
    x.map_values(|v: Num| v.minus())
}

/// Turning the sign of every sample round changes nothing in the autocorrelation.
pub proof fn lemma_polarity_does_not_matter(x: Seq<Num>, order: nat)
    ensures
        autocorrelation(inverted(x), order) == autocorrelation(x, order),
{
    assert forall|lag: int| 0 <= lag <= order implies #[trigger] autocorrelation(
        inverted(x),
        order,
    )[lag] == autocorrelation(x, order)[lag] by {
        lemma_inverted_lag_sum(x, lag as nat, x.len());
    }
    assert(autocorrelation(inverted(x), order) =~= autocorrelation(x, order));
}

proof fn lemma_inverted_lag_sum(x: Seq<Num>, lag: nat, end: nat)
    requires
        end <= x.len(),
    ensures
        lag_sum(inverted(x), lag, end) == lag_sum(x, lag, end),
    decreases end,
{
    if end > lag {
        lemma_inverted_lag_sum(x, lag, (end - 1) as nat);
        let a = x[end - 1];
        let b = x[end - 1 - lag];
        assert(prod32(a.minus(), b.minus()) == prod32(a, b));
    }
}

/// Whether a value is a number without the negative sign.
pub open spec fn is_unsigned(v: Num) -> bool {
    v !is Nan && !v.negative()
}

/// A square has no negative sign.
pub(crate) proof fn lemma_square(v: Num)
    requires
        v !is Nan,
    ensures
        is_unsigned(prod32(v, v)),
        binary32().holds(prod32(v, v)),
{
    if v is Finite {
        lemma_round_holds(
            binary32(),
            false,
            v->mant * v->mant,
            v->Finite_exp + v->Finite_exp,
            false,
        );
    }
}

/// Adding two numbers without the negative sign gives one that is zero only if both are.
pub(crate) proof fn lemma_unsigned_sum(a: Num, b: Num)
    requires
        is_unsigned(a),
        is_unsigned(b),
        binary32().holds(a),
        binary32().holds(b),
    ensures
        is_unsigned(sum32(a, b)),
        binary32().holds(sum32(a, b)),
        sum32(a, b).is_zero() <==> a.is_zero() && b.is_zero(),
{
    let f = binary32();
    lemma_plus_holds(f, a, b);
    lemma_append_none(0);
    if a is Finite && b is Finite {
        let x = common_exp(a, b);
        lemma_pow2_pos((a->Finite_exp - x) as nat);
        lemma_pow2_pos((b->Finite_exp - x) as nat);
        let p = pow2((a->Finite_exp - x) as nat);
        let q = pow2((b->Finite_exp - x) as nat);
        assert(a->mant * p >= 0 && b->mant * q >= 0) by (nonlinear_arith);
        assert(a->mant == 0 <==> a->mant * p == 0) by (nonlinear_arith)
            requires
                p > 0,
        ;
        assert(b->mant == 0 <==> b->mant * q == 0) by (nonlinear_arith)
            requires
                q > 0,
        ;
        let v = units(a, x) + units(b, x);
        if v > 0 {
            lemma_pow2_pos(f.precision);
            lemma_pow2_pos((f.precision - 1) as nat);
            let e = f.quantum(v as nat, x);
            let d = pow2((x - e) as nat);
            lemma_pow2_pos((x - e) as nat);
            assert(v * d > 0) by (nonlinear_arith)
                requires
                    v > 0,
                    d > 0,
            ;
        }
    }
}

/// The autocorrelation at lag 0 is the energy of a frame: it is never below zero, and it is
/// zero just where the square of every sample, rounded, is. This is so of any samples that
/// are numbers.
pub proof fn lemma_energy_is_not_negative(x: Seq<Num>, order: nat)
    requires
        forall|i: int| 0 <= i < x.len() ==> (#[trigger] x[i]) !is Nan,
    ensures
        zero32().at_most(autocorrelation(x, order)[0]),
        autocorrelation(x, order)[0].is_zero() <==> forall|i: int|
            0 <= i < x.len() ==> prod32(#[trigger] x[i], x[i]).is_zero(),
{
    lemma_energy(x, x.len());
    let v = lag_sum(x, 0, x.len());
    if v is Finite {
        let c = common_exp(zero32(), v);
        let d = pow2((v->Finite_exp - c) as nat);
        assert(v->mant * d >= 0) by (nonlinear_arith);
        assert(0nat * pow2((zero32()->Finite_exp - c) as nat) == 0) by (nonlinear_arith);
    }
}

proof fn lemma_energy(x: Seq<Num>, end: nat)
    requires
        forall|i: int| 0 <= i < x.len() ==> (#[trigger] x[i]) !is Nan,
        end <= x.len(),
    ensures
        is_unsigned(lag_sum(x, 0, end)),
        binary32().holds(lag_sum(x, 0, end)),
        lag_sum(x, 0, end).is_zero() <==> forall|i: int|
            0 <= i < end ==> prod32(#[trigger] x[i], x[i]).is_zero(),
    decreases end,
{
    if end > 0 {
        let v = x[end - 1];
        lemma_energy(x, (end - 1) as nat);
        lemma_square(v);
        lemma_unsigned_sum(lag_sum(x, 0, (end - 1) as nat), prod32(v, v));
    } else {
        lemma_round_holds(binary32(), false, 0, 0, false);
    }
}

/// Whether every sample is a finite 32-bit number.
pub open spec fn is_finite_frame(x: Seq<Num>) -> bool {
    forall|i: int| 0 <= i < x.len() ==> binary32().holds(#[trigger] x[i]) && x[i] is Finite
}

/// A sample as a multiple of the smallest 32-bit number.
pub open spec fn steps(v: Num) -> int {
    units(v, binary32().min_exp())
}

/// The sum of some integers.
pub open spec fn total(s: Seq<int>) -> int
    decreases s.len(),
{
    if s.len() == 0 {
        0
    } else {
        total(s.drop_last()) + s.last()
    }
}

/// The products of samples `lag` apart, without rounding, as multiples of the square of the
/// smallest 32-bit number.
pub open spec fn exact_products(x: Seq<Num>, lag: nat) -> Seq<int> {
    Seq::new(
        if lag <= x.len() {
            (x.len() - lag) as nat
        } else {
            0
        },
        |k: int| steps(x[k + lag]) * steps(x[k]),
    )
}

/// Whether the autocorrelation at a lag is the exact sum, as if nothing had been rounded.
pub open spec fn is_unrounded(x: Seq<Num>, order: nat, lag: nat) -> bool {
    let v = autocorrelation(x, order)[lag as int];
    &&& v is Finite
    &&& v->Finite_exp >= binary32().min_exp()
    &&& units(v, 2 * binary32().min_exp()) == total(exact_products(x, lag))
}

/// Where nothing is lost to rounding, the autocorrelation is largest at lag 0.
pub proof fn lemma_largest_at_lag_zero(x: Seq<Num>, order: nat, lag: nat)
    requires
        lag <= order,
        is_unrounded(x, order, 0),
        is_unrounded(x, order, lag),
    ensures
        autocorrelation(x, order)[lag as int].magnitude().at_most(autocorrelation(x, order)[0]),
{
    let y = 2 * binary32().min_exp();
    let v = autocorrelation(x, order)[lag as int];
    let energy = autocorrelation(x, order)[0];
    if lag <= x.len() {
        lemma_products_bounded(x, lag, (x.len() - lag) as nat);
        lemma_squares_grow(x, (x.len() - lag) as nat, x.len());
        assert(exact_products(x, lag).take(x.len() - lag) =~= exact_products(x, lag));
    } else {
        lemma_squares_grow(x, 0, x.len());
    }
    assert(exact_products(x, 0).take(x.len() as int) =~= exact_products(x, 0));
    let d = pow2((v->Finite_exp - y) as nat);
    assert(v->mant * d >= 0) by (nonlinear_arith);
    lemma_below_in_units(energy, v.magnitude(), y);
}

/// Twice the sum of the first products is bounded by the squares at both ends.
proof fn lemma_products_bounded(x: Seq<Num>, lag: nat, n: nat)
    requires
        lag + n <= x.len(),
    ensures
        ({
            let s = total(exact_products(x, lag).take(n as int));
            let q = total(exact_products(x, 0).take((n + lag) as int)) + total(
                exact_products(x, 0).take(n as int),
            );
            -q <= 2 * s <= q
        }),
    decreases n,
{
    let products = exact_products(x, lag);
    let squares = exact_products(x, 0);
    lemma_squares_grow(x, 0, lag + n);
    if n > 0 {
        let k = n - 1;
        lemma_products_bounded(x, lag, k as nat);
        assert(products.take(n as int).drop_last() =~= products.take(k));
        assert(squares.take(n as int).drop_last() =~= squares.take(k));
        assert(squares.take((n + lag) as int).drop_last() =~= squares.take((k + lag) as int));
        let a = steps(x[k + lag]);
        let b = steps(x[k]);
        assert(-(a * a + b * b) <= 2 * (a * b) <= a * a + b * b) by (nonlinear_arith);
    }
}

/// More squares make no smaller sum.
proof fn lemma_squares_grow(x: Seq<Num>, fewer: nat, more: nat)
    requires
        fewer <= more <= x.len(),
    ensures
        total(exact_products(x, 0).take(fewer as int)) <= total(
            exact_products(x, 0).take(more as int),
        ),
        0 <= total(exact_products(x, 0).take(fewer as int)),
    decreases more,
{
    let squares = exact_products(x, 0);
    if fewer < more {
        lemma_squares_grow(x, fewer, (more - 1) as nat);
        assert(squares.take(more as int).drop_last() =~= squares.take(more - 1));
        let a = steps(x[more - 1]);
        assert(a * a >= 0) by (nonlinear_arith);
    } else if fewer > 0 {
        lemma_squares_grow(x, (fewer - 1) as nat, (fewer - 1) as nat);
        assert(squares.take(fewer as int).drop_last() =~= squares.take(fewer - 1));
        let a = steps(x[fewer - 1]);
        assert(a * a >= 0) by (nonlinear_arith);
    }
}

/// Where nothing is lost to rounding, only a silent frame has no energy.
pub proof fn lemma_only_silence_has_no_energy(x: Seq<Num>, order: nat)
    requires
        is_finite_frame(x),
        is_unrounded(x, order, 0),
    ensures
        autocorrelation(x, order)[0].is_zero() <==> is_silent(x),
{
    let y = 2 * binary32().min_exp();
    let v = autocorrelation(x, order)[0];
    let d = pow2((v->Finite_exp - y) as nat);
    lemma_pow2_pos((v->Finite_exp - y) as nat);
    assert(v->mant == 0 <==> v->mant * d == 0) by (nonlinear_arith)
        requires
            d > 0,
    ;
    lemma_exact_energy(x, x.len());
    assert(exact_products(x, 0).take(x.len() as int) =~= exact_products(x, 0));
}

proof fn lemma_exact_energy(x: Seq<Num>, end: nat)
    requires
        is_finite_frame(x),
        end <= x.len(),
    ensures
        total(exact_products(x, 0).take(end as int)) >= 0,
        total(exact_products(x, 0).take(end as int)) == 0 <==> forall|i: int|
            0 <= i < end ==> (#[trigger] x[i]).is_zero(),
    decreases end,
{
    if end > 0 {
        lemma_exact_energy(x, (end - 1) as nat);
        let squares = exact_products(x, 0);
        assert(squares.take(end as int).drop_last() =~= squares.take(end - 1));
        let v = x[end - 1];
        let a = steps(v);
        assert(binary32().holds(v) && v is Finite);
        let d = pow2((v->Finite_exp - binary32().min_exp()) as nat);
        lemma_pow2_pos((v->Finite_exp - binary32().min_exp()) as nat);
        assert(v->mant == 0 <==> v->mant * d == 0) by (nonlinear_arith)
            requires
                d > 0,
        ;
        assert(a * a >= 0 && (a * a == 0 <==> a == 0)) by (nonlinear_arith);
    }
}

/// Where nothing is lost to rounding, a frame and the frame played backwards have the same
/// autocorrelation.
pub proof fn lemma_direction_does_not_matter(x: Seq<Num>, order: nat, lag: nat)
    requires
        lag <= order,
        is_unrounded(x, order, lag),
        is_unrounded(x.reverse(), order, lag),
    ensures
        autocorrelation(x.reverse(), order)[lag as int].at_most(
            autocorrelation(x, order)[lag as int],
        ),
        autocorrelation(x, order)[lag as int].at_most(
            autocorrelation(x.reverse(), order)[lag as int],
        ),
{
    let y = 2 * binary32().min_exp();
    let a = autocorrelation(x, order)[lag as int];
    let b = autocorrelation(x.reverse(), order)[lag as int];
    let products = exact_products(x, lag);
    assert forall|k: int| 0 <= k < products.len() implies #[trigger] exact_products(
        x.reverse(),
        lag,
    )[k] == products.reverse()[k] by {
        let i = x.len() - 1 - k;
        assert(steps(x[i]) * steps(x[i - lag]) == steps(x[i - lag]) * steps(x[i]))
            by (nonlinear_arith);
    }
    assert(exact_products(x.reverse(), lag) =~= products.reverse());
    lemma_total_of_reverse(products);
    lemma_below_in_units(a, b, y);
    lemma_below_in_units(b, a, y);
}

/// A sum does not depend on the end from which it is taken.
pub(crate) proof fn lemma_total_of_reverse(s: Seq<int>)
    ensures
        total(s.reverse()) == total(s),
    decreases s.len(),
{
    if s.len() > 0 {
        let rest = s.drop_last();
        lemma_total_of_reverse(rest);
        lemma_total_in_parts(seq![s.last()], rest.reverse());
        assert(s.reverse() =~= seq![s.last()] + rest.reverse());
        assert(seq![s.last()].drop_last() =~= Seq::<int>::empty());
        assert(total(seq![s.last()]) == total(Seq::<int>::empty()) + s.last());
    }
}

pub(crate) proof fn lemma_total_in_parts(s: Seq<int>, t: Seq<int>)
    ensures
        total(s + t) == total(s) + total(t),
    decreases t.len(),
{
    if t.len() == 0 {
        assert(s + t =~= s);
    } else {
        lemma_total_in_parts(s, t.drop_last());
        assert((s + t).drop_last() =~= s + t.drop_last());
    }
}

} // verus!
