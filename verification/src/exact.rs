//! When the 32-bit operations are exact, and that rounding keeps the order: what the laws
//! on signals rest on.

use crate::correlation::{lemma_square, steps};
use crate::equations::one;
use crate::float::{lemma_floor_root, lemma_floor_root_exists};
use crate::laws::{
    lemma_below_in_units, lemma_quotient_places_suffice, lemma_rank_of_plus,
    lemma_root_places_suffice, lemma_round_append, lemma_round_exact, lemma_round_signed_monotone,
    lemma_units_finer, round_signed,
};
use crate::number::{
    binary32, common_exp, diff32, floor_root, prod32, quot32, sum32, units, whole32, zero32,
    Format, Num,
};
use crate::order::{lemma_below_is_rank_order, lemma_below_is_strict_order, rank};
use crate::rounding::{
    lemma_append_none, lemma_bit_length_at_most, lemma_bit_length_more_than, lemma_over_holds,
    lemma_plus_holds, lemma_pow2_zero, lemma_round_compress, lemma_round_digits,
    lemma_round_holds,
};
use vstd::arithmetic::div_mod::{
    lemma_fundamental_div_mod, lemma_fundamental_div_mod_converse, lemma_mod_bound,
};
use vstd::arithmetic::power2::{
    lemma2_to64, lemma_pow2_adds, lemma_pow2_pos, lemma_pow2_unfold, pow2,
};
use vstd::prelude::*;

verus! {

/// Whether a value is a finite 32-bit number.
pub open spec fn is_number(v: Num) -> bool {
    binary32().holds(v) && v is Finite
}

/// The number `n / 2^s`.
pub open spec fn dyadic(n: nat, s: nat) -> Num {
    binary32().round(false, n, -(s as int), false)
}

/// The digits of a finite number as a multiple of `2^y`, without its sign.
pub open spec fn size(v: Num, y: int) -> nat {
    v->mant * pow2((v->Finite_exp - y) as nat)
}

/// Rounding what is a value of the format gives that value.
pub proof fn lemma_rounds_to(f: Format, neg: bool, n: nat, x: int, v: Num, y: int)
    requires
        f.valid(),
        f.holds(v),
        v is Finite,
        v.negative() == neg,
        y <= x,
        y <= v->Finite_exp,
        n * pow2((x - y) as nat) == size(v, y),
    ensures
        f.round(neg, n, x, false) == v,
{
    lemma_round_append(f, neg, n, x, (x - y) as nat);
    lemma_round_append(f, neg, v->mant, v->Finite_exp, (v->Finite_exp - y) as nat);
    lemma_round_exact(f, v);
}

/// Only zero has no digits.
pub proof fn lemma_size_zero(v: Num, y: int)
    requires
        v is Finite,
        y <= v->Finite_exp,
    ensures
        size(v, y) == 0 <==> v->mant == 0,
        size(v, y) >= 0,
        units(v, y) == if v.negative() {
            -(size(v, y) as int)
        } else {
            size(v, y) as int
        },
{
    let d = pow2((v->Finite_exp - y) as nat);
    lemma_pow2_pos((v->Finite_exp - y) as nat);
    assert(v->mant * d >= 0 && (v->mant == 0 <==> v->mant * d == 0)) by (nonlinear_arith)
        requires
            d > 0,
    ;
}

/// A sum that is a 32-bit number is exact.
pub proof fn lemma_sum_exact(a: Num, b: Num, v: Num)
    requires
        is_number(a),
        is_number(b),
        is_number(v),
        steps(a) + steps(b) == steps(v),
    ensures
        is_number(sum32(a, b)),
        steps(sum32(a, b)) == steps(v),
        !v.is_zero() ==> sum32(a, b) == v,
{
    let f = binary32();
    let y = f.min_exp();
    let x = common_exp(a, b);
    let w = units(a, x) + units(b, x);
    lemma_plus_holds(f, a, b);
    lemma_units_finer(a, x, y);
    lemma_units_finer(b, x, y);
    lemma_size_zero(v, y);
    let d = pow2((x - y) as nat) as int;
    lemma_pow2_pos((x - y) as nat);
    assert(w * d == steps(v)) by (nonlinear_arith)
        requires
            units(a, x) * d + units(b, x) * d == steps(v),
            w == units(a, x) + units(b, x),
    ;
    if w == 0 {
        assert(0 * d == 0);
        lemma_size_zero(sum32(a, b), y);
    } else if w < 0 {
        assert(w * d < 0 && (-w) * d == -(w * d)) by (nonlinear_arith)
            requires
                w < 0,
                d > 0,
        ;
        lemma_rounds_to(f, true, (-w) as nat, x, v, y);
    } else {
        assert(w * d > 0) by (nonlinear_arith)
            requires
                w > 0,
                d > 0,
        ;
        lemma_rounds_to(f, false, w as nat, x, v, y);
    }
}

/// The number without its sign, or with the other one.
pub proof fn lemma_signs(v: Num)
    requires
        is_number(v),
    ensures
        is_number(v.minus()),
        steps(v.minus()) == -steps(v),
        is_number(v.magnitude()),
        steps(v.magnitude()) == size(v, binary32().min_exp()),
{
    lemma_size_zero(v, binary32().min_exp());
}

/// A difference that is a 32-bit number is exact.
pub proof fn lemma_diff_exact(a: Num, b: Num, v: Num)
    requires
        is_number(a),
        is_number(b),
        is_number(v),
        steps(a) - steps(b) == steps(v),
    ensures
        is_number(diff32(a, b)),
        steps(diff32(a, b)) == steps(v),
        !v.is_zero() ==> diff32(a, b) == v,
{
    lemma_signs(b);
    lemma_sum_exact(a, b.minus(), v);
}

/// The digits of a product at twice the smallest exponent.
proof fn lemma_product_size(a: Num, b: Num)
    requires
        is_number(a),
        is_number(b),
    ensures
        ({
            let y = binary32().min_exp();
            (a->mant * b->mant) * pow2((a->Finite_exp + b->Finite_exp - 2 * y) as nat) == size(
                a,
                y,
            ) * size(b, y)
        }),
{
    let y = binary32().min_exp();
    let i = (a->Finite_exp - y) as nat;
    let j = (b->Finite_exp - y) as nat;
    lemma_pow2_adds(i, j);
    assert(i + j == (a->Finite_exp + b->Finite_exp - 2 * y) as nat);
    let (m, n, p, q) = (a->mant, b->mant, pow2(i), pow2(j));
    assert((m * n) * (p * q) == (m * p) * (n * q)) by (nonlinear_arith);
}

/// The digits of a number at twice the smallest exponent.
proof fn lemma_double_size(v: Num)
    requires
        is_number(v),
    ensures
        size(v, 2 * binary32().min_exp()) == size(v, binary32().min_exp()) * one(),
{
    let y = binary32().min_exp();
    lemma_pow2_adds((v->Finite_exp - y) as nat, (-y) as nat);
    let (m, p, q) = (v->mant, pow2((v->Finite_exp - y) as nat), pow2((-y) as nat));
    assert(m * (p * q) == (m * p) * q) by (nonlinear_arith);
}

/// The product of two numbers has the sizes' product, and the sign that the signs say.
proof fn lemma_signed_product(s: int, t: int, a: nat, b: nat, neg: bool, other: bool)
    requires
        s == if neg {
            -(a as int)
        } else {
            a as int
        },
        t == if other {
            -(b as int)
        } else {
            b as int
        },
    ensures
        s * t == if neg != other {
            -((a * b) as int)
        } else {
            (a * b) as int
        },
{
    let (i, j) = (a as int, b as int);
    assert((-i) * (-j) == i * j && (-i) * j == -(i * j) && i * (-j) == -(i * j))
        by (nonlinear_arith);
}

/// A product that is a 32-bit number is exact.
#[verifier::rlimit(40)]
pub proof fn lemma_prod_exact(a: Num, b: Num, v: Num)
    requires
        is_number(a),
        is_number(b),
        is_number(v),
        steps(a) * steps(b) == steps(v) * one(),
    ensures
        is_number(prod32(a, b)),
        steps(prod32(a, b)) == steps(v),
        !v.is_zero() ==> prod32(a, b) == v,
{
    let f = binary32();
    let y = f.min_exp();
    let u = one();
    lemma_pow2_pos((-y) as nat);
    lemma_size_zero(a, y);
    lemma_size_zero(b, y);
    lemma_size_zero(v, y);
    lemma_product_size(a, b);
    lemma_double_size(v);
    let neg = a.negative() != b.negative();
    let (p, q, w) = (size(a, y), size(b, y), size(v, y));
    lemma_signed_product(steps(a), steps(b), p, q, a.negative(), b.negative());
    lemma_signed_product(steps(v), u, w, u as nat, v.negative(), false);
    let x = a->Finite_exp + b->Finite_exp;
    lemma_round_holds(f, neg, a->mant * b->mant, x, false);
    assert(p * q >= 0 && w * u >= 0 && (w * u == 0 <==> w == 0)) by (nonlinear_arith)
        requires
            u > 0,
            p >= 0,
            q >= 0,
            w >= 0,
    ;
    assert(p * q == w * u);
    if w == 0 {
        let d = pow2((x - 2 * y) as nat);
        lemma_pow2_pos((x - 2 * y) as nat);
        let n = a->mant * b->mant;
        assert(n == 0) by (nonlinear_arith)
            requires
                n * d == 0,
                d > 0,
        ;
        lemma_size_zero(prod32(a, b), y);
    } else {
        lemma_rounds_to(f, neg, a->mant * b->mant, x, v, 2 * y);
    }
}

/// A quotient that is a 32-bit number is exact.
#[verifier::rlimit(40)]
pub proof fn lemma_quot_exact(a: Num, b: Num, v: Num)
    requires
        is_number(a),
        is_number(b),
        is_number(v),
        !b.is_zero(),
        steps(v) * steps(b) == steps(a) * one(),
    ensures
        is_number(quot32(a, b)),
        steps(quot32(a, b)) == steps(v),
        !v.is_zero() ==> quot32(a, b) == v,
{
    let f = binary32();
    let y = f.min_exp();
    let u = one();
    lemma_pow2_pos((-y) as nat);
    lemma_size_zero(a, y);
    lemma_size_zero(b, y);
    lemma_size_zero(v, y);
    lemma_over_holds(f, a, b);
    let (p, q, w) = (size(v, y), size(b, y), size(a, y));
    lemma_signed_product(steps(v), steps(b), p, q, v.negative(), b.negative());
    lemma_signed_product(steps(a), u, w, u as nat, a.negative(), false);
    let n = b->mant;
    assert(p * q >= 0 && w * u >= 0 && (w * u == 0 <==> w == 0) && (p * q == 0 <==> p == 0))
        by (nonlinear_arith)
        requires
            u > 0,
            p >= 0,
            q > 0,
            w >= 0,
    ;
    assert(p * q == w * u);
    if p == 0 {
        let k = 2 * f.precision;
        assert(0nat * pow2(k) == 0) by (nonlinear_arith);
        assert(0nat / n == 0 && 0nat % n == 0) by {
            vstd::arithmetic::div_mod::lemma_div_basics(n as int);
            vstd::arithmetic::div_mod::lemma_small_mod(0, n);
        }
        lemma_size_zero(quot32(a, b), y);
    } else {
        lemma_product_size(v, b);
        lemma_double_size(a);
        let m = a->mant;
        let top = (a->Finite_exp - 2 * y) as nat;
        let low = (v->Finite_exp + b->Finite_exp - 2 * y) as nat;
        let k = (2 * f.precision + 402) as nat;
        let more = (k - top) as nat;
        let e = low + more;
        lemma_pow2_adds(top, more);
        lemma_pow2_adds(low, more);
        let (pt, pl, pm) = (pow2(top), pow2(low), pow2(more));
        let r = v->mant;
        let whole = r * pow2(e);
        assert(m * (pt * pm) == (r * (pl * pm)) * n) by (nonlinear_arith)
            requires
                m * pt == (r * n) * pl,
        ;
        lemma_fundamental_div_mod_converse((m * pow2(k)) as int, n as int, whole as int, 0);
        lemma_quotient_places_suffice(f, a, b, 402);
        lemma_round_append(f, v.negative(), r, v->Finite_exp, e);
        lemma_round_exact(f, v);
        assert(v->Finite_exp - e == a->Finite_exp - b->Finite_exp - k);
    }
}

/// A root that is a 32-bit number is exact.
#[verifier::rlimit(40)]
pub proof fn lemma_root_exact(a: Num, v: Num)
    requires
        is_number(a),
        is_number(v),
        !a.negative(),
        !v.negative(),
        steps(v) * steps(v) == steps(a) * one(),
    ensures
        is_number(a.root(binary32())),
        steps(a.root(binary32())) == steps(v),
        !v.is_zero() ==> a.root(binary32()) == v,
{
    let f = binary32();
    let y = f.min_exp();
    let u = one();
    lemma_pow2_pos((-y) as nat);
    lemma_size_zero(a, y);
    lemma_size_zero(v, y);
    let (p, w) = (size(v, y), size(a, y));
    assert(p * p >= 0 && w * u >= 0 && (w * u == 0 <==> w == 0) && (p * p == 0 <==> p == 0))
        by (nonlinear_arith)
        requires
            u > 0,
            p >= 0,
            w >= 0,
    ;
    if p > 0 {
        lemma_product_size(v, v);
        lemma_double_size(a);
        let e = a->Finite_exp;
        let m = a->mant;
        let k = (2 * f.precision + e % 2 + 2 * 300) as nat;
        let top = (e - 2 * y) as nat;
        let low = (2 * v->Finite_exp - 2 * y) as nat;
        let more = (k - top) as nat;
        let h = (v->Finite_exp - (e - k) / 2) as nat;
        assert((e - k) % 2 == 0);
        assert(low + more == 2 * h);
        lemma_pow2_adds(top, more);
        lemma_pow2_adds(low, more);
        lemma_pow2_adds(h, h);
        let (pt, pl, pm, ph) = (pow2(top), pow2(low), pow2(more), pow2(h));
        let r = v->mant;
        let whole = r * ph;
        assert(m * (pt * pm) == (r * ph) * (r * ph)) by (nonlinear_arith)
            requires
                m * pt == (r * r) * pl,
                pl * pm == ph * ph,
        ;
        assert(whole * whole < (whole + 1) * (whole + 1)) by (nonlinear_arith);
        lemma_floor_root(m * pow2(k), whole);
        lemma_root_places_suffice(f, a, 300);
        lemma_round_append(f, false, r, v->Finite_exp, h);
        lemma_round_exact(f, v);
    }
}

/// Numbers are ordered as their multiples of the smallest number are.
pub proof fn lemma_order_in_steps(a: Num, b: Num)
    requires
        is_number(a),
        is_number(b),
    ensures
        a.below(b) <==> steps(a) < steps(b),
        a.at_most(b) <==> steps(a) <= steps(b),
{
    lemma_below_in_units(a, b, binary32().min_exp());
    lemma_below_in_units(b, a, binary32().min_exp());
}

/// `n / 2^s` is held exactly where `n` fits the format.
pub proof fn lemma_dyadic(n: nat, s: nat)
    requires
        n < 0x100_0000,
        s <= 149,
    ensures
        is_number(dyadic(n, s)),
        !dyadic(n, s).negative(),
        steps(dyadic(n, s)) == n * pow2((149 - s) as nat),
        n > 0 ==> !dyadic(n, s).is_zero(),
{
    let f = binary32();
    let x = -(s as int);
    let v = dyadic(n, s);
    lemma2_to64();
    lemma_round_holds(f, false, n, x, false);
    if n > 0 {
        lemma_bit_length_at_most(n, 24);
        let e = f.quantum(n, x);
        lemma_round_digits(f, n, x, false);
        let j = (x - e) as nat;
        let k = (e - f.min_exp()) as nat;
        lemma_pow2_pos(j);
        lemma_pow2_adds(j, k);
        let (p, q) = (pow2(j), pow2(k));
        assert(v == Num::Finite { neg: false, mant: n * p, exp: e });
        assert((n * p) * q == n * (p * q)) by (nonlinear_arith);
        assert(n * p > 0) by (nonlinear_arith)
            requires
                n > 0,
                p > 0,
        ;
        assert(j + k == (149 - s) as nat);
    } else {
        assert(0nat * pow2(0) == 0 && 0nat * pow2((149 - s) as nat) == 0) by (nonlinear_arith);
    }
}

/// A whole number is a fraction of one.
pub proof fn lemma_whole_is_dyadic(n: nat)
    ensures
        whole32(n) == dyadic(n, 0),
{
}

/// A sticky digit counts as one more digit.
proof fn lemma_sticky_digit(f: Format, n: nat, x: int, sticky: bool)
    requires
        f.valid(),
        n >= pow2(f.precision),
    ensures
        f.round(false, n, x, sticky) == f.round(
            false,
            2 * n + if sticky {
                1nat
            } else {
                0
            },
            x - 1,
            false,
        ),
{
    let m = 2 * n + if sticky {
        1nat
    } else {
        0
    };
    lemma_pow2_zero();
    lemma_pow2_pos(f.precision);
    lemma_pow2_unfold(f.precision + 1);
    lemma_bit_length_more_than(m, f.precision + 1);
    lemma_round_compress(f, false, m, x - 1, false, 1);
}

/// The place of a product is that of the exact product rounded.
pub proof fn lemma_rank_of_times(a: Num, b: Num)
    requires
        is_number(a),
        is_number(b),
    ensures
        prod32(a, b) !is Nan,
        binary32().holds(prod32(a, b)),
        rank(binary32(), prod32(a, b)) == rank(
            binary32(),
            round_signed(binary32(), steps(a) * steps(b), 2 * binary32().min_exp()),
        ),
{
    let f = binary32();
    let y = f.min_exp();
    let neg = a.negative() != b.negative();
    let n = a->mant * b->mant;
    let x = a->Finite_exp + b->Finite_exp;
    lemma_size_zero(a, y);
    lemma_size_zero(b, y);
    lemma_product_size(a, b);
    let (p, q) = (size(a, y), size(b, y));
    lemma_signed_product(steps(a), steps(b), p, q, a.negative(), b.negative());
    lemma_round_holds(f, neg, n, x, false);
    lemma_round_append(f, neg, n, x, (x - 2 * y) as nat);
    assert(p * q >= 0) by (nonlinear_arith)
        requires
            p >= 0,
            q >= 0,
    ;
    if p * q == 0 {
        assert((f.min_exp() - f.min_exp()) * f.exponent_unit() == 0) by (nonlinear_arith);
    }
}

/// Multiplying both sides by the same number, which is not below zero, keeps the order.
pub proof fn lemma_prod_monotone(k: Num, a: Num, b: Num)
    requires
        is_number(k),
        is_number(a),
        is_number(b),
        steps(k) >= 0,
        a.at_most(b),
    ensures
        prod32(k, a).at_most(prod32(k, b)),
{
    let f = binary32();
    lemma_order_in_steps(a, b);
    lemma_rank_of_times(k, a);
    lemma_rank_of_times(k, b);
    let (t, u, v) = (steps(k), steps(a), steps(b));
    assert(t * u <= t * v) by (nonlinear_arith)
        requires
            t >= 0,
            u <= v,
    ;
    lemma_round_signed_monotone(f, t * u, t * v, 2 * f.min_exp());
    lemma_below_is_rank_order(f, prod32(k, b), prod32(k, a));
}

/// No number is above the infinite one.
proof fn lemma_infinite_is_largest(v: Num)
    requires
        v !is Nan,
    ensures
        v.at_most(Num::Infinite { neg: false }),
{
}

/// The larger of two numbers, their signs aside, has the larger square.
pub proof fn lemma_square_monotone(a: Num, b: Num)
    requires
        binary32().holds(a),
        binary32().holds(b),
        a.magnitude().at_most(b.magnitude()),
    ensures
        prod32(a, a).at_most(prod32(b, b)),
{
    let f = binary32();
    let y = f.min_exp();
    lemma_square(a);
    lemma_square(b);
    if b is Infinite {
        lemma_infinite_is_largest(prod32(a, a));
    } else if a is Finite {
        lemma_signs(a);
        lemma_signs(b);
        lemma_order_in_steps(a.magnitude(), b.magnitude());
        lemma_rank_of_times(a, a);
        lemma_rank_of_times(b, b);
        lemma_size_zero(a, y);
        lemma_size_zero(b, y);
        let (u, v) = (steps(a), steps(b));
        let (p, q) = (size(a, y) as int, size(b, y) as int);
        assert(u * u <= v * v) by (nonlinear_arith)
            requires
                u == p || u == -p,
                v == q || v == -q,
                0 <= p <= q,
        ;
        lemma_round_signed_monotone(f, u * u, v * v, 2 * y);
        lemma_below_is_rank_order(f, prod32(b, b), prod32(a, a));
    }
}

/// The quotient of two numbers above zero, with its digits taken from a common place on.
#[verifier::rlimit(40)]
proof fn lemma_quotient_digits(a: Num, d: Num)
    requires
        is_number(a),
        is_number(d),
        a->mant > 0,
        d->mant > 0,
        !a.negative(),
        !d.negative(),
    ensures
        ({
            let f = binary32();
            let y = f.min_exp();
            let top = size(a, y) * pow2(48);
            let digits = 2 * (top / d->mant) + if top % d->mant != 0 {
                1nat
            } else {
                0
            };
            quot32(a, d) == f.round(false, digits, y - d->Finite_exp - 49, false)
        }),
{
    let f = binary32();
    let y = f.min_exp();
    let j = (a->Finite_exp - y) as nat;
    lemma_quotient_places_suffice(f, a, d, j);
    lemma_pow2_adds(j, 48);
    lemma_pow2_pos(j);
    let (m, p, q) = (a->mant, pow2(j), pow2(48));
    assert(m * (p * q) == (m * p) * q) by (nonlinear_arith);
    let top = size(a, y) * q;
    assert(m * pow2(48 + j) == top);
    let n = d->mant;
    lemma_pow2_adds(24, 24);
    lemma_pow2_pos(24);
    let full = pow2(24) as int;
    let whole = top / n;
    lemma_fundamental_div_mod(top as int, n as int);
    lemma_mod_bound(top as int, n as int);
    assert(m * p >= 1) by (nonlinear_arith)
        requires
            m >= 1,
            p >= 1,
    ;
    assert(whole >= full) by (nonlinear_arith)
        requires
            top == n * whole + top as int % n as int,
            top as int % (n as int) < n,
            top == (m * p) * (full * full),
            m * p >= 1,
            0 < n < full,
            full > 0,
    ;
    lemma_sticky_digit(f, whole, a->Finite_exp - d->Finite_exp - 48 - j, top % n != 0);
}

/// A longer dividend gives no smaller quotient, and where the quotients agree no smaller
/// remainder.
proof fn lemma_division_monotone(a: nat, b: nat, n: nat)
    requires
        a <= b,
        n > 0,
    ensures
        2 * (a / n) + (if a % n != 0 {
            1nat
        } else {
            0
        }) <= 2 * (b / n) + (if b % n != 0 {
            1nat
        } else {
            0
        }),
{
    let (x, y, m) = (a as int, b as int, n as int);
    lemma_fundamental_div_mod(x, m);
    lemma_fundamental_div_mod(y, m);
    lemma_mod_bound(x, m);
    lemma_mod_bound(y, m);
    let (p, q, r, t) = (x / m, y / m, x % m, y % m);
    assert(p <= q && (p == q ==> r <= t)) by (nonlinear_arith)
        requires
            x == m * p + r,
            y == m * q + t,
            0 <= r < m,
            0 <= t < m,
            x <= y,
    ;
}

/// Dividing both sides by a number above zero keeps the order of numbers that are not below
/// zero.
#[verifier::rlimit(40)]
pub proof fn lemma_quot_monotone(a: Num, b: Num, d: Num)
    requires
        binary32().holds(a),
        binary32().holds(b),
        is_number(d),
        !d.negative(),
        !d.is_zero(),
        !a.negative(),
        !b.negative(),
        a.at_most(b),
    ensures
        quot32(a, d) !is Nan,
        quot32(b, d) !is Nan,
        !quot32(a, d).negative(),
        !quot32(b, d).negative(),
        binary32().holds(quot32(a, d)),
        binary32().holds(quot32(b, d)),
        quot32(a, d).at_most(quot32(b, d)),
{
    let f = binary32();
    let y = f.min_exp();
    lemma_over_holds(f, a, d);
    lemma_over_holds(f, b, d);
    if b is Infinite {
        lemma_infinite_is_largest(quot32(a, d));
    } else {
        lemma_order_in_steps(a, b);
        lemma_size_zero(a, y);
        lemma_size_zero(b, y);
        lemma_below_is_rank_order(f, quot32(b, d), quot32(a, d));
        if a->mant == 0 {
            lemma_zero_over(d);
            assert(quot32(a, d) == f.zero(false));
            lemma_order_of_zero(quot32(b, d));
        } else {
            lemma_quotient_digits(a, d);
            lemma_quotient_digits(b, d);
            let (p, q, w) = (size(a, y), size(b, y), pow2(48));
            lemma_pow2_pos(48);
            assert(p * w <= q * w) by (nonlinear_arith)
                requires
                    p <= q,
                    w > 0,
            ;
            lemma_division_monotone(p * w, q * w, d->mant);
            let v = 2 * ((p * w) / d->mant) + (if (p * w) % d->mant != 0 {
                1nat
            } else {
                0
            });
            let z = 2 * ((q * w) / d->mant) + (if (q * w) % d->mant != 0 {
                1nat
            } else {
                0
            });
            lemma_round_signed_monotone(f, v as int, z as int, y - d->Finite_exp - 49);
        }
    }
}

/// Nothing divided is nothing.
proof fn lemma_zero_over(d: Num)
    requires
        is_number(d),
        !d.is_zero(),
    ensures
        0nat * pow2(48) == 0,
        0nat / d->mant == 0,
        0nat % d->mant == 0,
{
    assert(0nat * pow2(48) == 0) by (nonlinear_arith);
    vstd::arithmetic::div_mod::lemma_div_basics(d->mant as int);
    vstd::arithmetic::div_mod::lemma_small_mod(0, d->mant);
}

/// Zero is at most every number without the negative sign.
pub proof fn lemma_order_of_zero(v: Num)
    requires
        v !is Nan,
        !v.negative(),
        binary32().holds(v),
    ensures
        zero32().at_most(v),
{
    if v is Finite {
        let c = common_exp(zero32(), v);
        let d = pow2((v->Finite_exp - c) as nat);
        assert(v->mant * d >= 0) by (nonlinear_arith);
        assert(0nat * pow2((zero32()->Finite_exp - c) as nat) == 0) by (nonlinear_arith);
    }
}

/// The root of a number above zero, with its digits taken from a common place on.
#[verifier::rlimit(40)]
proof fn lemma_root_digits(a: Num)
    requires
        is_number(a),
        a->mant > 0,
        !a.negative(),
    ensures
        ({
            let f = binary32();
            let radicand = size(a, -150) * pow2(48);
            let r = floor_root(radicand);
            let digits = 2 * r + if r * r != radicand {
                1nat
            } else {
                0
            };
            a.root(f) == f.round(false, digits, -100, false)
        }),
{
    let f = binary32();
    let e = a->Finite_exp;
    let j = ((e - e % 2 + 150) / 2) as nat;
    let k = (48 + e % 2 + 2 * j) as nat;
    assert(k == e + 150 + 48);
    lemma_root_places_suffice(f, a, j);
    lemma_pow2_adds((e + 150) as nat, 48);
    let (m, p, q) = (a->mant, pow2((e + 150) as nat), pow2(48));
    assert(m * (p * q) == (m * p) * q) by (nonlinear_arith);
    let radicand = size(a, -150) * q;
    assert(m * pow2(k) == radicand);
    let r = floor_root(radicand);
    lemma_floor_root_exists(radicand);
    lemma_pow2_adds(24, 24);
    lemma_pow2_pos(24);
    lemma_pow2_pos((e + 150) as nat);
    let full = pow2(24) as int;
    assert(m * p >= 1) by (nonlinear_arith)
        requires
            m >= 1,
            p >= 1,
    ;
    assert(r >= full) by (nonlinear_arith)
        requires
            radicand < (r + 1) * (r + 1),
            radicand == (m * p) * (full * full),
            m * p >= 1,
            full > 0,
            r >= 0,
    ;
    assert((e - k) / 2 == -99);
    lemma_sticky_digit(f, r, -99, r * r != radicand);
}

/// A larger number has no smaller root.
#[verifier::rlimit(40)]
pub proof fn lemma_root_monotone(a: Num, b: Num)
    requires
        binary32().holds(a),
        binary32().holds(b),
        !a.negative(),
        !b.negative(),
        a.at_most(b),
    ensures
        a.root(binary32()) !is Nan,
        b.root(binary32()) !is Nan,
        !a.root(binary32()).negative(),
        binary32().holds(a.root(binary32())),
        binary32().holds(b.root(binary32())),
        a.root(binary32()).at_most(b.root(binary32())),
{
    let f = binary32();
    let y = f.min_exp();
    lemma_root_holds(a);
    lemma_root_holds(b);
    if b is Infinite {
        lemma_infinite_is_largest(a.root(f));
    } else {
        lemma_order_in_steps(a, b);
        lemma_size_zero(a, y);
        lemma_size_zero(b, y);
        lemma_below_is_rank_order(f, b.root(f), a.root(f));
        if a->mant == 0 {
            lemma_pow2_pos(23);
            assert(a == f.zero(false));
            lemma_order_of_zero(b.root(f));
        } else {
            lemma_root_digits(a);
            lemma_root_digits(b);
            lemma_units_finer(a, y, -150);
            lemma_units_finer(b, y, -150);
            lemma_pow2_zero();
            let (p, q, w) = (size(a, -150), size(b, -150), pow2(48));
            lemma_size_zero(a, -150);
            lemma_size_zero(b, -150);
            lemma_pow2_pos(48);
            assert(pow2((y - (-150)) as nat) == 2);
            assert(units(a, -150) == steps(a) * 2 && units(b, -150) == steps(b) * 2);
            assert(p * w <= q * w) by (nonlinear_arith)
                requires
                    p <= q,
                    w > 0,
            ;
            let (r, t) = (floor_root(p * w), floor_root(q * w));
            lemma_floor_root_exists(p * w);
            lemma_floor_root_exists(q * w);
            assert(r <= t && (r == t && r * r != p * w ==> t * t != q * w)) by (nonlinear_arith)
                requires
                    r * r <= p * w < (r + 1) * (r + 1),
                    t * t <= q * w < (t + 1) * (t + 1),
                    p * w <= q * w,
            ;
            let v = 2 * r + (if r * r != p * w {
                1nat
            } else {
                0
            });
            let z = 2 * t + (if t * t != q * w {
                1nat
            } else {
                0
            });
            lemma_round_signed_monotone(f, v as int, z as int, -100);
        }
    }
}

proof fn lemma_root_holds(a: Num)
    requires
        binary32().holds(a),
        a !is Nan,
        !a.negative(),
    ensures
        binary32().holds(a.root(binary32())),
        a.root(binary32()) !is Nan,
        !a.root(binary32()).negative(),
{
    let f = binary32();
    if a is Finite && a->mant > 0 {
        let k = 2 * f.precision + a->Finite_exp % 2;
        let radicand = a->mant * pow2(k as nat);
        let r = floor_root(radicand);
        lemma_round_holds(f, false, r, (a->Finite_exp - k) / 2, r * r != radicand);
    }
}

/// A number has the place of its digits, rounded.
proof fn lemma_rank_of_number(v: Num)
    requires
        is_number(v),
    ensures
        rank(binary32(), v) == rank(
            binary32(),
            round_signed(binary32(), steps(v) * one(), 2 * binary32().min_exp()),
        ),
{
    let f = binary32();
    let y = f.min_exp();
    let u = one();
    lemma_pow2_pos((-y) as nat);
    lemma_size_zero(v, y);
    lemma_double_size(v);
    lemma_size_zero(v, 2 * y);
    let w = size(v, y);
    lemma_signed_product(steps(v), u, w, u as nat, v.negative(), false);
    assert(w * u >= 0 && (w * u == 0 <==> w == 0)) by (nonlinear_arith)
        requires
            w >= 0,
            u > 0,
    ;
    if w == 0 {
        lemma_pow2_pos(23);
        assert((f.min_exp() - f.min_exp()) * f.exponent_unit() == 0) by (nonlinear_arith);
    } else {
        lemma_append_none(w * u as nat);
        lemma_rounds_to(f, v.negative(), (w * u) as nat, 2 * y, v, 2 * y);
    }
}

/// A product is on the side of a 32-bit number on which it is without rounding.
pub proof fn lemma_prod_against(a: Num, b: Num, v: Num)
    requires
        is_number(a),
        is_number(b),
        is_number(v),
    ensures
        binary32().holds(prod32(a, b)),
        prod32(a, b) !is Nan,
        steps(v) * one() <= steps(a) * steps(b) ==> v.at_most(prod32(a, b)),
        steps(v) * one() >= steps(a) * steps(b) ==> prod32(a, b).at_most(v),
{
    let f = binary32();
    let x = 2 * f.min_exp();
    lemma_rank_of_number(v);
    lemma_rank_of_times(a, b);
    lemma_below_is_rank_order(f, v, prod32(a, b));
    lemma_below_is_rank_order(f, prod32(a, b), v);
    let (p, q) = (steps(v) * one(), steps(a) * steps(b));
    if p <= q {
        lemma_round_signed_monotone(f, p, q, x);
    }
    if p >= q {
        lemma_round_signed_monotone(f, q, p, x);
    }
}

/// A quotient of numbers above zero is on the side of a 32-bit number on which it is
/// without rounding.
#[verifier::rlimit(40)]
pub proof fn lemma_quot_against(a: Num, d: Num, v: Num)
    requires
        is_number(a),
        is_number(d),
        is_number(v),
        steps(a) > 0,
        steps(d) > 0,
        steps(v) > 0,
        d->Finite_exp >= -49,
    ensures
        binary32().holds(quot32(a, d)),
        quot32(a, d) !is Nan,
        steps(v) * steps(d) <= steps(a) * one() ==> v.at_most(quot32(a, d)),
        steps(v) * steps(d) >= steps(a) * one() ==> quot32(a, d).at_most(v),
{
    let f = binary32();
    let y = f.min_exp();
    lemma_size_zero(a, y);
    lemma_size_zero(d, y);
    lemma_size_zero(v, y);
    lemma_over_holds(f, a, d);
    lemma_quotient_digits(a, d);
    lemma_below_is_strict_order(f, a, a, a);
    lemma_quot_monotone(a, a, d);
    let n = d->mant;
    let x = y - d->Finite_exp - 49;
    let top = size(a, y) * pow2(48);
    let digits = 2 * (top / n) + if top % n != 0 {
        1nat
    } else {
        0
    };
    // `v` with its digits from the same place on
    let j = (y - x) as nat;
    let whole = size(v, y) * pow2(j);
    lemma_pow2_adds((v->Finite_exp - y) as nat, j);
    let (m, p, q) = (v->mant, pow2((v->Finite_exp - y) as nat), pow2(j));
    assert(m * (p * q) == (m * p) * q) by (nonlinear_arith);
    assert(whole == size(v, x));
    lemma_append_none(whole);
    lemma_rounds_to(f, false, whole, x, v, x);
    // the bounds: `v * d` against `a`, in units of `2^(2 * y)`
    let e = (d->Finite_exp - y) as nat;
    lemma_pow2_adds(j, 100);
    assert(e == j + 100);
    lemma_pow2_adds(49, 100);
    lemma_pow2_adds(48, 1);
    lemma_pow2_zero();
    let (sv, sa, w, u) = (size(v, y) as int, size(a, y) as int, pow2(e) as int, one());
    let h = pow2(49) as int;
    let t = pow2(48) as int;
    let g = q as int;
    let c = pow2(100) as int;
    lemma_pow2_pos(100);
    assert(w == g * c && u == h * c && h == 2 * t);
    assert(sv * (n * w) <= sa * u ==> (sv * g) * n <= 2 * (sa * t)) by (nonlinear_arith)
        requires
            w == g * c,
            u == h * c,
            h == 2 * t,
            c > 0,
    ;
    assert(sv * (n * w) >= sa * u ==> (sv * g) * n >= 2 * (sa * t)) by (nonlinear_arith)
        requires
            w == g * c,
            u == h * c,
            h == 2 * t,
            c > 0,
    ;
    lemma_fundamental_div_mod(top as int, n as int);
    lemma_mod_bound(top as int, n as int);
    let (quotient, rest, big) = (top as int / n as int, top as int % n as int, n as int);
    let vv = whole as int;
    lemma_below_is_rank_order(f, v, quot32(a, d));
    lemma_below_is_rank_order(f, quot32(a, d), v);
    if steps(v) * steps(d) <= steps(a) * u {
        assert(vv <= 2 * quotient + 1 && (rest == 0 ==> vv <= 2 * quotient)) by (nonlinear_arith)
            requires
                vv * big <= 2 * (big * quotient + rest),
                0 <= rest < big,
        ;
        lemma_round_signed_monotone(f, vv, digits as int, x);
    }
    if steps(v) * steps(d) >= steps(a) * u {
        assert(vv >= 2 * quotient && (rest != 0 ==> vv >= 2 * quotient + 1)) by (nonlinear_arith)
            requires
                vv * big >= 2 * (big * quotient + rest),
                0 <= rest < big,
        ;
        lemma_round_signed_monotone(f, digits as int, vv, x);
    }
}

/// A sum is on the side of a 32-bit number on which it is without rounding.
pub proof fn lemma_sum_against(a: Num, b: Num, v: Num)
    requires
        is_number(a),
        is_number(b),
        is_number(v),
    ensures
        binary32().holds(sum32(a, b)),
        sum32(a, b) !is Nan,
        steps(v) <= steps(a) + steps(b) ==> v.at_most(sum32(a, b)),
        steps(v) >= steps(a) + steps(b) ==> sum32(a, b).at_most(v),
{
    let f = binary32();
    let y = f.min_exp();
    lemma_plus_holds(f, a, b);
    lemma_rank_of_plus(f, a, b, y);
    lemma_size_zero(v, y);
    let w = size(v, y);
    if w == 0 {
        lemma_pow2_pos(23);
        assert((f.min_exp() - f.min_exp()) * f.exponent_unit() == 0) by (nonlinear_arith);
    } else {
        lemma_append_none(w);
        lemma_rounds_to(f, v.negative(), w, y, v, y);
    }
    assert(rank(f, v) == rank(f, round_signed(f, steps(v), y)));
    lemma_below_is_rank_order(f, v, sum32(a, b));
    lemma_below_is_rank_order(f, sum32(a, b), v);
    if steps(v) <= steps(a) + steps(b) {
        lemma_round_signed_monotone(f, steps(v), steps(a) + steps(b), y);
    }
    if steps(v) >= steps(a) + steps(b) {
        lemma_round_signed_monotone(f, steps(a) + steps(b), steps(v), y);
    }
}

/// The difference of two numbers, its sign aside, is on the side of a third on which it is
/// without rounding.
pub proof fn lemma_apart_against(a: Num, b: Num, c: Num)
    requires
        is_number(a),
        is_number(b),
        is_number(c),
        steps(c) >= 0,
    ensures
        binary32().holds(diff32(a, b).magnitude()),
        diff32(a, b).magnitude() !is Nan,
        -steps(c) <= steps(a) - steps(b) <= steps(c) ==> diff32(a, b).magnitude().at_most(c),
        steps(a) - steps(b) >= steps(c) || steps(b) - steps(a) >= steps(c) ==> c.at_most(
            diff32(a, b).magnitude(),
        ),
{
    let d = diff32(a, b);
    lemma_signs(b);
    lemma_signs(c);
    lemma_sum_against(a, b.minus(), c);
    lemma_sum_against(a, b.minus(), c.minus());
    if d is Finite {
        lemma_signs(d);
        lemma_size_zero(d, binary32().min_exp());
        lemma_order_in_steps(c, d);
        lemma_order_in_steps(d, c);
        lemma_order_in_steps(c.minus(), d);
        lemma_order_in_steps(d, c.minus());
        lemma_order_in_steps(c, d.magnitude());
        lemma_order_in_steps(d.magnitude(), c);
    }
}

} // verus!
