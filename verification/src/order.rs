//! The order of floating-point numbers.

use crate::number::{common_exp, Format, Num};
use crate::rounding::{lemma_append_none, lemma_pow2_monotone, lemma_pow2_zero};
use vstd::arithmetic::power2::{lemma_pow2_pos, lemma_pow2_unfold, pow2};
use vstd::prelude::*;

verus! {

/// Where a value stands among those of its format: its distance from zero in steps from
/// each value to the next, which is what the bits below the sign count.
pub open spec fn rank(f: Format, v: Num) -> int {
    let steps = match v {
        Num::Nan => 0,
        Num::Infinite { .. } => f.infinity_bits() as int,
        Num::Finite { mant, exp, .. } => (exp - f.min_exp()) * f.exponent_unit() + mant,
    };
    if v.negative() {
        -steps
    } else {
        steps
    }
}

/// Values of a format are ordered by magnitude as their exponents are, then their digits.
pub proof fn lemma_order_by_digits(f: Format, a: Num, b: Num)
    requires
        f.valid(),
        f.holds(a),
        f.holds(b),
        a is Finite,
        b is Finite,
    ensures
        ({
            let x = common_exp(a, b);
            let m = a->mant * pow2((a->Finite_exp - x) as nat);
            let n = b->mant * pow2((b->Finite_exp - x) as nat);
            &&& m < n <==> (a->exp < b->exp || (a->exp == b->exp && a->mant < b->mant))
            &&& m == n <==> (a->exp == b->exp && a->mant == b->mant)
            &&& m == 0 <==> a->mant == 0
            &&& n == 0 <==> b->mant == 0
        }),
{
    lemma_pow2_zero();
    lemma_append_none(a->mant);
    lemma_append_none(b->mant);
    let p = f.precision;
    lemma_pow2_unfold(p);
    lemma_pow2_pos((p - 1) as nat);
    let half = pow2((p - 1) as nat);
    if a->exp < b->exp {
        let k = (b->exp - a->exp) as nat;
        lemma_pow2_monotone(1, k);
        let d = pow2(k);
        assert(b->mant * d >= half * 2) by (nonlinear_arith)
            requires
                b->mant >= half,
                d >= 2,
        ;
        assert(b->mant * d > 0) by (nonlinear_arith)
            requires
                b->mant >= half,
                half > 0,
                d >= 2,
        ;
    } else if a->exp > b->exp {
        let k = (a->exp - b->exp) as nat;
        lemma_pow2_monotone(1, k);
        let d = pow2(k);
        assert(a->mant * d >= half * 2) by (nonlinear_arith)
            requires
                a->mant >= half,
                d >= 2,
        ;
        assert(a->mant * d > 0) by (nonlinear_arith)
            requires
                a->mant >= half,
                half > 0,
                d >= 2,
        ;
    }
}

/// The steps from zero of a finite value are none for zero only, and fewer than those of
/// infinity.
proof fn lemma_steps_bounds(f: Format, v: Num)
    requires
        f.valid(),
        f.holds(v),
        v is Finite,
    ensures
        ({
            let steps = (v->Finite_exp - f.min_exp()) * f.exponent_unit() + v->mant;
            &&& 0 <= steps < f.infinity_bits()
            &&& steps == 0 <==> v->mant == 0
        }),
{
    let u = f.exponent_unit();
    lemma_pow2_pos((f.precision - 1) as nat);
    lemma_pow2_unfold(f.precision);
    let k = v->Finite_exp - f.min_exp();
    assert(f.max_exp() - f.min_exp() == f.exponent_top() - 2);
    assert(0 <= k * u <= (f.exponent_top() - 2) * u) by (nonlinear_arith)
        requires
            0 <= k <= f.exponent_top() - 2,
            u > 0,
    ;
    if k == 0 {
        assert(k * u == 0) by (nonlinear_arith)
            requires
                k == 0,
        ;
    }
    assert(f.infinity_bits() == (f.exponent_top() - 2) * u + 2 * u) by (nonlinear_arith)
        requires
            f.infinity_bits() == f.exponent_top() * u,
    ;
}

/// Values of a format compare as their ranks do.
pub proof fn lemma_below_is_rank_order(f: Format, a: Num, b: Num)
    requires
        f.valid(),
        f.holds(a),
        f.holds(b),
        a !is Nan,
        b !is Nan,
    ensures
        a.below(b) <==> rank(f, a) < rank(f, b),
{
    let u = f.exponent_unit() as int;
    lemma_pow2_pos((f.precision - 1) as nat);
    lemma_pow2_unfold(f.precision);
    if a is Finite {
        lemma_steps_bounds(f, a);
    }
    if b is Finite {
        lemma_steps_bounds(f, b);
    }
    assert(f.infinity_bits() > 0) by (nonlinear_arith)
        requires
            f.infinity_bits() == f.exponent_top() * u,
            u > 0,
            f.exponent_top() > 0,
    ;
    if a is Finite && b is Finite {
        lemma_order_by_digits(f, a, b);
        let i = a->Finite_exp - f.min_exp();
        let j = b->Finite_exp - f.min_exp();
        if i < j {
            assert(i * u + u <= j * u) by (nonlinear_arith)
                requires
                    i + 1 <= j,
                    u > 0,
            ;
        } else if j < i {
            assert(j * u + u <= i * u) by (nonlinear_arith)
                requires
                    j + 1 <= i,
                    u > 0,
            ;
        }
    }
}

/// The order is transitive, and no number is below itself or both below and above
/// another.
pub proof fn lemma_below_is_strict_order(f: Format, a: Num, b: Num, c: Num)
    requires
        f.valid(),
        f.holds(a),
        f.holds(b),
        f.holds(c),
    ensures
        !a.below(a),
        a.below(b) ==> !b.below(a),
        a.below(b) && b.below(c) ==> a.below(c),
        a.at_most(b) && b.at_most(c) ==> a.at_most(c),
        a !is Nan && b !is Nan ==> a.below(b) || b.at_most(a),
{
    if a !is Nan {
        lemma_below_is_rank_order(f, a, a);
        if b !is Nan {
            lemma_below_is_rank_order(f, a, b);
            lemma_below_is_rank_order(f, b, a);
            if c !is Nan {
                lemma_below_is_rank_order(f, b, c);
                lemma_below_is_rank_order(f, c, b);
                lemma_below_is_rank_order(f, a, c);
                lemma_below_is_rank_order(f, c, a);
            }
        }
    }
}

/// Two numbers above zero of which neither is below the other are the same.
pub proof fn lemma_positive_equal(f: Format, a: Num, b: Num)
    requires
        f.valid(),
        f.holds(a),
        f.holds(b),
        f.zero(false).below(a),
        f.zero(false).below(b),
        !a.below(b),
        !b.below(a),
    ensures
        a == b,
{
    lemma_append_none(0);
    lemma_pow2_pos(f.precision);
    if a is Finite {
        lemma_order_by_digits(f, f.zero(false), a);
    }
    if b is Finite {
        lemma_order_by_digits(f, f.zero(false), b);
    }
    if a is Finite && b is Finite {
        lemma_order_by_digits(f, a, b);
    }
}

} // verus!
