//! Laws of rounded arithmetic.

use crate::float::{lemma_floor_root, lemma_floor_root_exists};
use crate::number::{bit_length, common_exp, floor_root, nearest, units, Format, Num};
use crate::order::{lemma_below_is_rank_order, rank};
use crate::rounding::{
    lemma_append_none, lemma_bit_length_append, lemma_bit_length_at_most,
    lemma_bit_length_bounds, lemma_bit_length_drop, lemma_bit_length_more_than,
    lemma_bit_length_unique, lemma_nearest_bounds, lemma_plus_holds, lemma_pow2_monotone,
    lemma_pow2_zero, lemma_round_compress, lemma_round_digits, lemma_round_holds,
};
use vstd::arithmetic::div_mod::{
    lemma_div_is_ordered, lemma_fundamental_div_mod, lemma_fundamental_div_mod_converse,
    lemma_mod_bound,
};
use vstd::arithmetic::power2::{
    lemma_pow2_adds, lemma_pow2_pos, lemma_pow2_strictly_increases, lemma_pow2_unfold, pow2,
};
use vstd::prelude::*;

verus! {

/// No multiple of `2^drop` is closer to `n` than the one that rounding picks; and of two
/// that are equally close, rounding picks the even one.
pub proof fn lemma_nearest_is_closest(n: nat, drop: nat, q: int)
    ensures
        ({
            let unit = pow2(drop) as int;
            let picked = nearest(n, drop, false) as int;
            let off = if n >= picked * unit { n - picked * unit } else { picked * unit - n };
            let other = if n >= q * unit { n - q * unit } else { q * unit - n };
            &&& off <= other
            &&& off == other && q != picked ==> picked % 2 == 0
        }),
{
    lemma_pow2_zero();
    lemma_pow2_pos(drop);
    let unit = pow2(drop) as int;
    let picked = nearest(n, drop, false) as int;
    if drop == 0 {
        lemma_append_none(picked as nat);
        assert(q * unit == q) by (nonlinear_arith)
            requires
                unit == 1,
        ;
    } else {
        let half = pow2((drop - 1) as nat) as int;
        lemma_pow2_unfold(drop);
        let t = n as int / unit;
        let r = n as int % unit;
        lemma_fundamental_div_mod(n as int, unit);
        lemma_mod_bound(n as int, unit);
        assert(t * unit == unit * t) by (nonlinear_arith);
        assert((t + 1) * unit == unit * t + unit) by (nonlinear_arith);
        if q <= t {
            assert(q * unit <= t * unit - (t - q) * unit) by (nonlinear_arith);
            if q < t {
                assert((t - q) * unit >= unit) by (nonlinear_arith)
                    requires
                        t - q >= 1,
                        unit > 0,
                ;
            }
        } else {
            assert(q * unit == t * unit + unit + (q - t - 1) * unit) by (nonlinear_arith);
            if q > t + 1 {
                assert((q - t - 1) * unit >= unit) by (nonlinear_arith)
                    requires
                        q - t - 1 >= 1,
                        unit > 0,
                ;
            }
        }
    }
}

/// Rounding to a multiple keeps the order.
proof fn lemma_nearest_monotone(n: nat, m: nat, drop: nat)
    requires
        n <= m,
    ensures
        nearest(n, drop, false) <= nearest(m, drop, false),
{
    if drop > 0 {
        let unit = pow2(drop) as int;
        lemma_pow2_pos(drop);
        lemma_fundamental_div_mod(n as int, unit);
        lemma_fundamental_div_mod(m as int, unit);
        lemma_mod_bound(n as int, unit);
        lemma_mod_bound(m as int, unit);
        lemma_div_is_ordered(n as int, m as int, unit);
        lemma_nearest_bounds(n, drop, false);
        lemma_nearest_bounds(m, drop, false);
    }
}

/// Writing a number with more zeros at the end does not change how it is rounded.
pub proof fn lemma_round_append(f: Format, neg: bool, n: nat, x: int, k: nat)
    requires
        f.valid(),
    ensures
        f.round(neg, n * pow2(k), x - k, false) == f.round(neg, n, x, false),
{
    let d = pow2(k) as int;
    lemma_pow2_pos(k);
    if n == 0 {
        assert(n * pow2(k) == 0) by (nonlinear_arith)
            requires
                n == 0,
        ;
    } else {
        let m = n * pow2(k);
        lemma_bit_length_append(n, k);
        let e = f.quantum(n, x);
        assert(e == f.quantum(m, x - k));
        assert(m as int == n * d + 0);
        lemma_fundamental_div_mod_converse(m as int, d, n as int, 0);
        assert(m >= pow2(k)) by (nonlinear_arith)
            requires
                m == n * pow2(k),
                n >= 1,
        ;
        if e > x {
            lemma_round_compress(f, neg, m, x - k, false, k);
        } else if e <= x - k {
            let j = (x - k - e) as nat;
            lemma_pow2_adds(k, j);
            assert(m * pow2(j) == n * (pow2(k) * pow2(j))) by (nonlinear_arith)
                requires
                    m == n * pow2(k),
            ;
        } else {
            let drop = (e - (x - k)) as nat;
            let keep = (x - e) as nat;
            lemma_pow2_adds(keep, drop);
            lemma_pow2_pos(drop);
            lemma_pow2_pos((drop - 1) as nat);
            let u = pow2(drop) as int;
            let q = n * pow2(keep);
            assert(m as int == q as int * u + 0) by (nonlinear_arith)
                requires
                    m == n * pow2(k),
                    pow2(k) == pow2(keep) * u,
                    q == n * pow2(keep),
            ;
            lemma_fundamental_div_mod_converse(m as int, u, q as int, 0);
        }
    }
}

/// The place of a rounded number, from its digits before the carry is dealt with.
pub proof fn lemma_rank_of_pack(f: Format, mant: nat, exp: int)
    requires
        f.valid(),
        mant <= pow2(f.precision),
        exp >= f.min_exp(),
        exp == f.min_exp() || mant >= f.exponent_unit(),
    ensures
        ({
            let steps = (exp - f.min_exp()) * f.exponent_unit() + mant;
            rank(f, f.pack(false, mant, exp)) == if steps < f.infinity_bits() {
                steps
            } else {
                f.infinity_bits() as int
            }
        }),
{
    let u = f.exponent_unit() as int;
    lemma_pow2_pos((f.precision - 1) as nat);
    lemma_pow2_unfold(f.precision);
    let k = exp - f.min_exp();
    let top = f.exponent_top() as int;
    assert(f.max_exp() - f.min_exp() == top - 2);
    assert((k + 1) * u == k * u + u) by (nonlinear_arith);
    assert(f.infinity_bits() == (top - 2) * u + 2 * u) by (nonlinear_arith)
        requires
            f.infinity_bits() == top * u,
    ;
    if k <= top - 2 {
        assert(k * u <= (top - 2) * u) by (nonlinear_arith)
            requires
                k <= top - 2,
                u > 0,
        ;
        if k <= top - 3 {
            assert(k * u + u <= (top - 2) * u) by (nonlinear_arith)
                requires
                    k <= top - 3,
                    u > 0,
            ;
        }
    } else {
        assert(k * u >= (top - 2) * u + u) by (nonlinear_arith)
            requires
                k >= top - 1,
                u > 0,
        ;
        assert(top >= 3);
        assert(k > 0);
    }
}

/// Rounding keeps the order of magnitudes.
proof fn lemma_round_monotone(f: Format, n: nat, m: nat, x: int)
    requires
        f.valid(),
        n <= m,
    ensures
        0 <= rank(f, f.round(false, n, x, false)) <= rank(f, f.round(false, m, x, false)),
{
    let u = f.exponent_unit() as int;
    lemma_pow2_pos((f.precision - 1) as nat);
    lemma_pow2_unfold(f.precision);
    assert(f.infinity_bits() > 0) by (nonlinear_arith)
        requires
            f.infinity_bits() == f.exponent_top() * u,
            u > 0,
            f.exponent_top() > 0,
    ;
    assert(0 * u == 0);
    if m > 0 {
        let e2 = f.quantum(m, x);
        let m2 = if e2 <= x { m * pow2((x - e2) as nat) } else { nearest(m, (e2 - x) as nat, false) };
        lemma_round_digits(f, m, x, false);
        lemma_rank_of_pack(f, m2, e2);
        assert((e2 - f.min_exp()) * u >= 0) by (nonlinear_arith)
            requires
                e2 - f.min_exp() >= 0,
                u > 0,
        ;
        if n > 0 {
            let e1 = f.quantum(n, x);
            let m1 = if e1 <= x {
                n * pow2((x - e1) as nat)
            } else {
                nearest(n, (e1 - x) as nat, false)
            };
            lemma_round_digits(f, n, x, false);
            lemma_rank_of_pack(f, m1, e1);
            lemma_bit_length_bounds(m);
            lemma_bit_length_at_most(n, bit_length(m));
            assert((e1 - f.min_exp()) * u >= 0) by (nonlinear_arith)
                requires
                    e1 - f.min_exp() >= 0,
                    u > 0,
            ;
            if e1 == e2 {
                if e1 <= x {
                    let d = pow2((x - e1) as nat);
                    assert(n * d <= m * d) by (nonlinear_arith)
                        requires
                            n <= m,
                    ;
                } else {
                    lemma_nearest_monotone(n, m, (e1 - x) as nat);
                }
            } else {
                let a = e1 - f.min_exp();
                let b = e2 - f.min_exp();
                assert(a * u + u <= b * u) by (nonlinear_arith)
                    requires
                        a + 1 <= b,
                        u > 0,
                ;
            }
        }
    }
}

/// `v * 2^x`, with its sign, rounded.
pub open spec fn round_signed(f: Format, v: int, x: int) -> Num {
    if v < 0 {
        f.round(true, (-v) as nat, x, false)
    } else {
        f.round(false, v as nat, x, false)
    }
}

/// The place of a number below zero mirrors that of the same number above.
proof fn lemma_rank_mirrors(f: Format, n: nat, x: int)
    requires
        f.valid(),
    ensures
        rank(f, f.round(true, n, x, false)) == -rank(f, f.round(false, n, x, false)),
{
}

/// Rounding keeps the order.
pub proof fn lemma_round_signed_monotone(f: Format, v: int, w: int, x: int)
    requires
        f.valid(),
        v <= w,
    ensures
        rank(f, round_signed(f, v, x)) <= rank(f, round_signed(f, w, x)),
{
    if v < 0 {
        lemma_rank_mirrors(f, (-v) as nat, x);
        lemma_round_monotone(f, 0, (-v) as nat, x);
        if w < 0 {
            lemma_rank_mirrors(f, (-w) as nat, x);
            lemma_round_monotone(f, (-w) as nat, (-v) as nat, x);
        } else {
            lemma_round_monotone(f, 0, w as nat, x);
        }
    } else {
        lemma_round_monotone(f, v as nat, w as nat, x);
    }
}

/// The same number in finer units.
pub proof fn lemma_units_finer(v: Num, x: int, y: int)
    requires
        v is Finite,
        y <= x <= v->exp,
    ensures
        units(v, y) == units(v, x) * pow2((x - y) as nat),
{
    let a = (v->exp - x) as nat;
    let b = (x - y) as nat;
    lemma_pow2_adds(a, b);
    let m = v->mant as int;
    let p = pow2(a) as int;
    let q = pow2(b) as int;
    assert(m * (p * q) == (m * p) * q) by (nonlinear_arith);
    assert((-(m * p)) * q == -((m * p) * q)) by (nonlinear_arith);
}

/// The place of a sum is that of the exact sum rounded, in whatever units it is taken.
pub proof fn lemma_rank_of_plus(f: Format, a: Num, b: Num, y: int)
    requires
        f.valid(),
        a is Finite,
        b is Finite,
        y <= common_exp(a, b),
    ensures
        rank(f, a.plus(f, b)) == rank(f, round_signed(f, units(a, y) + units(b, y), y)),
{
    let x = common_exp(a, b);
    let k = (x - y) as nat;
    let d = pow2(k) as int;
    lemma_pow2_pos(k);
    lemma_units_finer(a, x, y);
    lemma_units_finer(b, x, y);
    let v = units(a, x) + units(b, x);
    assert(units(a, x) * d + units(b, x) * d == v * d) by (nonlinear_arith)
        requires
            v == units(a, x) + units(b, x),
    ;
    assert(units(a, y) + units(b, y) == v * d);
    if v < 0 {
        assert((-v) * d == -(v * d) && v * d < 0) by (nonlinear_arith)
            requires
                v < 0,
                d > 0,
        ;
        lemma_round_append(f, true, (-v) as nat, x, k);
        assert(a.plus(f, b) == f.round(true, (-v) as nat, x, false));
        assert(round_signed(f, v * d, y) == f.round(true, ((-v) as nat) * pow2(k), x - k, false));
    } else if v > 0 {
        assert(v * d > 0) by (nonlinear_arith)
            requires
                v > 0,
                d > 0,
        ;
        lemma_round_append(f, false, v as nat, x, k);
        assert(a.plus(f, b) == f.round(false, v as nat, x, false));
        assert(round_signed(f, v * d, y) == f.round(false, (v as nat) * pow2(k), x - k, false));
    } else {
        assert(v * d == 0) by (nonlinear_arith)
            requires
                v == 0,
        ;
        assert(round_signed(f, 0, y) == f.zero(false));
        assert(a.plus(f, b) == f.zero(a.negative() && b.negative()));
        assert((f.min_exp() - f.min_exp()) * f.exponent_unit() == 0) by (nonlinear_arith);
    }
}

/// Finite numbers compare as their values in common units do.
pub proof fn lemma_below_in_units(a: Num, b: Num, y: int)
    requires
        a is Finite,
        b is Finite,
        y <= common_exp(a, b),
    ensures
        a.below(b) <==> units(a, y) < units(b, y),
{
    let x = common_exp(a, b);
    let d = pow2((x - y) as nat) as int;
    lemma_pow2_pos((x - y) as nat);
    lemma_units_finer(a, x, y);
    lemma_units_finer(b, x, y);
    let u = units(a, x);
    let v = units(b, x);
    assert(u < v <==> u * d < v * d) by (nonlinear_arith)
        requires
            d > 0,
    ;
}

/// Adding the same number to both sides keeps the order, unless a sum is not a number.
pub proof fn lemma_plus_monotone(f: Format, a: Num, b: Num, c: Num)
    requires
        f.valid(),
        f.holds(a),
        f.holds(b),
        f.holds(c),
        a.at_most(b),
        a.plus(f, c) !is Nan,
        b.plus(f, c) !is Nan,
    ensures
        a.plus(f, c).at_most(b.plus(f, c)),
{
    lemma_plus_holds(f, a, c);
    lemma_plus_holds(f, b, c);
    if a is Finite && b is Finite && c is Finite {
        let y = f.min_exp();
        lemma_below_in_units(b, a, y);
        lemma_rank_of_plus(f, a, c, y);
        lemma_rank_of_plus(f, b, c, y);
        lemma_round_signed_monotone(
            f,
            units(a, y) + units(c, y),
            units(b, y) + units(c, y),
            y,
        );
        lemma_below_is_rank_order(f, b.plus(f, c), a.plus(f, c));
    }
}

/// Sums and products do not depend on the order of the operands.
pub proof fn lemma_commutative(f: Format, a: Num, b: Num)
    ensures
        a.plus(f, b) == b.plus(f, a),
        a.times(f, b) == b.times(f, a),
{
    if a is Finite && b is Finite {
        assert(a->mant * b->mant == b->mant * a->mant) by (nonlinear_arith);
    }
}

/// A value of the format, written with its own digits, is rounded to itself.
pub proof fn lemma_round_exact(f: Format, v: Num)
    requires
        f.valid(),
        f.holds(v),
        v is Finite,
    ensures
        f.round(v.negative(), v->mant, v->Finite_exp, false) == v,
{
    lemma_append_none(v->mant);
    if v->mant > 0 {
        lemma_bit_length_bounds(v->mant);
        lemma_bit_length_at_most(v->mant, f.precision);
        if v->exp != f.min_exp() {
            lemma_bit_length_more_than(v->mant, (f.precision - 1) as nat);
        }
    } else {
        lemma_pow2_pos((f.precision - 1) as nat);
    }
}

/// Adding zero, which may have either sign, to a number other than zero changes nothing.
pub proof fn lemma_plus_zero(f: Format, v: Num, neg: bool)
    requires
        f.valid(),
        f.holds(v),
        !v.is_zero(),
    ensures
        v.plus(f, f.zero(neg)) == v,
{
    if v is Finite {
        let x = f.min_exp();
        let k = (v->exp - x) as nat;
        let d = pow2(k);
        lemma_pow2_pos(k);
        lemma_round_exact(f, v);
        lemma_round_append(f, v.negative(), v->mant, v->exp, k);
        lemma_append_none(0);
        assert(v->mant * d > 0) by (nonlinear_arith)
            requires
                v->mant > 0,
                d > 0,
        ;
    }
}

/// Taking a finite number from itself leaves zero.
pub proof fn lemma_less_itself(f: Format, v: Num)
    requires
        v is Finite,
    ensures
        v.less(f, v) == f.zero(false),
{
}

/// Every bit pattern that stands for a number is the pattern of that number, and every
/// value comes back from its pattern.
pub proof fn lemma_encoding_round_trip(f: Format, bits: nat, v: Num)
    requires
        f.valid(),
        bits < 2 * f.sign_unit(),
        f.holds(v),
    ensures
        f.decode(bits) !is Nan ==> f.encode(f.decode(bits)) == bits,
        f.holds(f.decode(bits)),
        f.decode(f.encode(v)) == v,
        f.encode(v) < 2 * f.sign_unit(),
{
    let u = f.exponent_unit() as int;
    let top = f.exponent_top() as int;
    let sign = f.sign_unit() as int;
    lemma_pow2_pos((f.precision - 1) as nat);
    lemma_pow2_unfold(f.precision);
    lemma_pow2_monotone(1, (f.precision - 1) as nat);
    lemma_pow2_zero();
    assert(sign == top * u + u) by (nonlinear_arith)
        requires
            sign == (top + 1) * u,
    ;
    assert(top * u > 0) by (nonlinear_arith)
        requires
            top > 0,
            u > 0,
    ;
    // from bits and back
    let rest = bits as int % sign;
    if bits >= sign {
        lemma_fundamental_div_mod_converse(bits as int, sign, 1, bits - sign);
    } else {
        lemma_fundamental_div_mod_converse(bits as int, sign, 0, bits as int);
    }
    let biased = rest / u;
    let digits = rest % u;
    lemma_fundamental_div_mod(rest, u);
    lemma_mod_bound(rest, u);
    assert(u * biased == biased * u) by (nonlinear_arith);
    assert(biased >= 0 && biased <= top) by (nonlinear_arith)
        requires
            rest == u * biased + digits,
            0 <= digits < u,
            0 <= rest < (top + 1) * u,
            u > 0,
    ;
    assert((biased - 1) * u == biased * u - u) by (nonlinear_arith);
    assert(0 * u == 0);
    // from a value and back
    let steps: int = match v {
        Num::Nan => top * u + u / 2,
        Num::Infinite { .. } => top * u,
        Num::Finite { mant, exp, .. } => (exp - f.min_exp()) * u + mant,
    };
    let b = match v {
        Num::Nan => top,
        Num::Infinite { .. } => top,
        Num::Finite { mant, exp, .. } => if mant >= u { exp - f.min_exp() + 1 } else { 0 },
    };
    let g = match v {
        Num::Nan => u / 2,
        Num::Infinite { .. } => 0,
        Num::Finite { mant, exp, .. } => if mant >= u { mant - u } else { mant as int },
    };
    assert(f.max_exp() - f.min_exp() == top - 2);
    assert(steps == b * u + g) by (nonlinear_arith)
        requires
            v matches Num::Finite { mant, exp, .. } ==> {
                &&& steps == (exp - f.min_exp()) * u + mant
                &&& b == (if mant >= u { exp - f.min_exp() + 1 } else { 0 })
                &&& g == (if mant >= u { mant - u } else { mant as int })
                &&& mant < u ==> exp == f.min_exp()
            },
            v is Nan ==> steps == top * u + u / 2 && b == top && g == u / 2,
            v is Infinite ==> steps == top * u && b == top && g == 0,
    ;
    assert(0 <= steps < sign) by (nonlinear_arith)
        requires
            steps == b * u + g,
            0 <= b <= top,
            0 <= g < u,
            u > 0,
            sign == top * u + u,
    ;
    lemma_fundamental_div_mod_converse(steps, u, b, g);
    let code = f.encode(v) as int;
    if v.negative() {
        assert(code == sign + steps);
        lemma_fundamental_div_mod_converse(code, sign, 1, steps);
    } else {
        assert(code == steps);
        lemma_fundamental_div_mod_converse(code, sign, 0, steps);
    }
}

/// A whole number that fits the format is held exactly.
pub proof fn lemma_whole_exact(f: Format, n: nat)
    requires
        f.valid(),
        n < pow2(f.precision),
    ensures
        f.whole(n) is Finite,
        f.whole(n)->exp <= 0,
        f.holds(f.whole(n)),
        units(f.whole(n), f.min_exp()) == n * pow2((-f.min_exp()) as nat),
{
    lemma_round_holds(f, false, n, 0, false);
    lemma_append_none(0);
    let p = f.precision;
    if n > 0 {
        lemma_bit_length_bounds(n);
        lemma_bit_length_at_most(n, p);
        let e = f.quantum(n, 0);
        lemma_round_digits(f, n, 0, false);
        let j = (-e) as nat;
        let k = (e - f.min_exp()) as nat;
        lemma_pow2_adds(j, k);
        assert(j + k == (-f.min_exp()) as nat);
        assert((n * pow2(j)) * pow2(k) == n * (pow2(j) * pow2(k))) by (nonlinear_arith);
    } else {
        assert(n * pow2((-f.min_exp()) as nat) == 0) by (nonlinear_arith)
            requires
                n == 0,
        ;
    }
}

/// Whole numbers that fit the format compare as they should.
pub proof fn lemma_whole_order(f: Format, n: nat, m: nat)
    requires
        f.valid(),
        n < pow2(f.precision),
        m < pow2(f.precision),
    ensures
        f.whole(n).below(f.whole(m)) <==> n < m,
        f.whole(n).at_most(f.whole(m)) <==> n <= m,
{
    lemma_whole_exact(f, n);
    lemma_whole_exact(f, m);
    lemma_below_in_units(f.whole(n), f.whole(m), f.min_exp());
    lemma_below_in_units(f.whole(m), f.whole(n), f.min_exp());
    let d = pow2((-f.min_exp()) as nat);
    lemma_pow2_pos((-f.min_exp()) as nat);
    assert(n * d < m * d <==> n < m) by (nonlinear_arith)
        requires
            d > 0,
    ;
    assert(m * d < n * d <==> m < n) by (nonlinear_arith)
        requires
            d > 0,
    ;
}

/// A number of a format with fewer digits and smaller exponents keeps its value in one
/// with more.
pub proof fn lemma_convert_exact(f: Format, g: Format, v: Num)
    requires
        f.valid(),
        g.valid(),
        f.precision <= g.precision,
        f.max_exp() <= g.max_exp(),
        g.min_exp() + g.precision <= f.min_exp(),
        f.holds(v),
        v is Finite,
    ensures
        g.convert(v) is Finite,
        g.holds(g.convert(v)),
        units(g.convert(v), g.min_exp()) == units(v, g.min_exp()),
{
    let n = v->mant;
    let x = v->Finite_exp;
    lemma_round_holds(g, v.negative(), n, x, false);
    lemma_append_none(0);
    if n > 0 {
        lemma_bit_length_bounds(n);
        lemma_bit_length_at_most(n, f.precision);
        lemma_round_digits(g, n, x, false);
        let e = g.quantum(n, x);
        let j = (x - e) as nat;
        let k = (e - g.min_exp()) as nat;
        lemma_pow2_adds(j, k);
        assert((n * pow2(j)) * pow2(k) == n * (pow2(j) * pow2(k))) by (nonlinear_arith);
    } else {
        assert(n * pow2((x - g.min_exp()) as nat) == 0) by (nonlinear_arith)
            requires
                n == 0,
        ;
    }
}

/// The place of a number that is written with at most the digits of the format.
proof fn lemma_rank_of_digits(f: Format, m: nat, e: int)
    requires
        f.valid(),
        0 < m <= pow2(f.precision),
        e >= f.min_exp(),
        e == f.min_exp() || m >= f.exponent_unit(),
    ensures
        ({
            let steps = (e - f.min_exp()) * f.exponent_unit() + m;
            rank(f, f.round(false, m, e, false)) == if steps < f.infinity_bits() {
                steps
            } else {
                f.infinity_bits() as int
            }
        }),
{
    let p = f.precision;
    lemma_rank_of_pack(f, m, e);
    lemma_append_none(m);
    lemma_pow2_pos((p - 1) as nat);
    lemma_pow2_unfold(p);
    lemma_bit_length_bounds(m);
    if m < pow2(p) {
        lemma_bit_length_at_most(m, p);
        if e != f.min_exp() {
            lemma_bit_length_more_than(m, (p - 1) as nat);
        }
        assert(f.round(false, m, e, false) == f.pack(false, m, e));
    } else {
        lemma_pow2_strictly_increases(p, p + 1);
        lemma_bit_length_unique(m, p + 1);
        lemma_pow2_zero();
        lemma_fundamental_div_mod_converse(m as int, 2, pow2((p - 1) as nat) as int, 0);
        assert(nearest(m, 1, false) == pow2((p - 1) as nat));
        assert(f.round(false, m, e, false) == f.pack(false, pow2((p - 1) as nat), e + 1));
    }
}

/// The place of a finite number.
proof fn lemma_rank_of_finite(f: Format, v: Num)
    requires
        f.valid(),
        f.holds(v),
        v is Finite,
    ensures
        ({
            let steps = (v->Finite_exp - f.min_exp()) * f.exponent_unit() + v->mant;
            &&& rank(f, v) == if v.negative() { -steps } else { steps }
            &&& 0 <= steps < f.infinity_bits()
            &&& v->mant > 0 ==> steps > 0
        }),
{
    lemma_below_is_rank_order(f, v, Num::Infinite { neg: false });
    lemma_below_is_rank_order(f, v.magnitude(), Num::Infinite { neg: false });
    assert(f.holds(f.zero(false))) by {
        lemma_pow2_pos(f.precision);
    }
    lemma_pow2_pos((f.precision - 1) as nat);
    let u = f.exponent_unit() as int;
    let k = v->Finite_exp - f.min_exp();
    assert(k * u >= 0) by (nonlinear_arith)
        requires
            k >= 0,
            u > 0,
    ;
}

/// Adding a number that is at least the distance from `v` to the next number gives more
/// than `v`.
pub proof fn lemma_plus_advances(f: Format, v: Num, w: Num)
    requires
        f.valid(),
        f.holds(v),
        f.holds(w),
        v is Finite,
        w is Finite,
        units(w, f.min_exp()) >= pow2((v->Finite_exp - f.min_exp()) as nat),
    ensures
        v.below(v.plus(f, w)),
{
    let y = f.min_exp();
    let m = v->mant;
    let e = v->Finite_exp;
    let k = (e - y) as nat;
    let d = pow2(k) as int;
    let u = f.exponent_unit() as int;
    let sum = v.plus(f, w);
    lemma_pow2_pos(k);
    lemma_pow2_pos((f.precision - 1) as nat);
    lemma_pow2_unfold(f.precision);
    lemma_plus_holds(f, v, w);
    lemma_rank_of_plus(f, v, w, y);
    lemma_round_signed_monotone(f, units(v, y) + d, units(v, y) + units(w, y), y);
    lemma_rank_of_finite(f, v);
    let next = round_signed(f, units(v, y) + d, y);
    if !v.negative() || m == 0 {
        assert(units(v, y) + d == (m + 1) * d) by (nonlinear_arith)
            requires
                units(v, y) == m * d || (m == 0 && units(v, y) == -(m * d)),
        ;
        assert((m + 1) * d > 0) by (nonlinear_arith)
            requires
                d > 0,
                m >= 0,
        ;
        lemma_round_append(f, false, m + 1, e, k);
        lemma_rank_of_digits(f, m + 1, e);
    } else {
        assert(units(v, y) + d == -((m - 1) * d)) by (nonlinear_arith)
            requires
                units(v, y) == -(m * d),
        ;
        if m == 1 {
            assert((m - 1) * d == 0) by (nonlinear_arith)
                requires
                    m == 1,
            ;
            assert(next == f.zero(false));
            assert((y - y) * u == 0) by (nonlinear_arith);
        } else {
            let l = (m - 1) as nat;
            assert(l * d > 0) by (nonlinear_arith)
                requires
                    l > 0,
                    d > 0,
            ;
            assert(next == f.round(true, l * pow2(k), y, false));
            lemma_rank_mirrors(f, l * pow2(k), y);
            lemma_round_append(f, false, l, e, k);
            if e == y || l >= u {
                lemma_rank_of_digits(f, l, e);
            } else {
                lemma_pow2_zero();
                lemma_round_append(f, false, l, e, 1);
                lemma_pow2_monotone(1, (f.precision - 1) as nat);
                lemma_rank_of_digits(f, l * 2, e - 1);
                assert((e - 1 - y) * u == (e - y) * u - u) by (nonlinear_arith);
            }
        }
    }
    lemma_below_is_rank_order(f, v, sum);
}

/// A number between two finite ones is finite, and has no larger exponent than both.
pub proof fn lemma_between(f: Format, a: Num, v: Num, b: Num, limit: int)
    requires
        f.valid(),
        f.holds(a),
        f.holds(v),
        f.holds(b),
        a is Finite,
        b is Finite,
        v !is Nan,
        f.min_exp() <= limit,
        a->Finite_exp <= limit,
        b->Finite_exp <= limit,
        rank(f, a) <= rank(f, v) <= rank(f, b),
    ensures
        v is Finite,
        v->Finite_exp <= limit,
{
    let u = f.exponent_unit() as int;
    lemma_pow2_pos((f.precision - 1) as nat);
    lemma_pow2_unfold(f.precision);
    lemma_rank_of_finite(f, a);
    lemma_rank_of_finite(f, b);
    let y = f.min_exp();
    assert((a->Finite_exp - y) * u <= (limit - y) * u) by (nonlinear_arith)
        requires
            a->Finite_exp <= limit,
            u > 0,
    ;
    assert((b->Finite_exp - y) * u <= (limit - y) * u) by (nonlinear_arith)
        requires
            b->Finite_exp <= limit,
            u > 0,
    ;
    if v is Finite {
        lemma_rank_of_finite(f, v);
        if v->Finite_exp > limit {
            assert((v->Finite_exp - y) * u >= (limit - y) * u + u) by (nonlinear_arith)
                requires
                    v->Finite_exp >= limit + 1,
                    u > 0,
            ;
        }
    }
}

/// Dividing with `j` more binary places: the quotient gains `j` digits, and nothing is left
/// over just if nothing was left over before and the new digits are zero.
proof fn lemma_longer_division(a: nat, n: nat, j: nat)
    requires
        n > 0,
    ensures
        ({
            let q = (a * pow2(j)) / n;
            &&& q / pow2(j) == a / n
            &&& ((a * pow2(j)) % n != 0 || q % pow2(j) != 0) <==> a % n != 0
        }),
{
    let d = pow2(j) as int;
    lemma_pow2_pos(j);
    let b = (a * pow2(j)) as int;
    let m = n as int;
    let q = b / m;
    let r = b % m;
    lemma_fundamental_div_mod(b, m);
    lemma_mod_bound(b, m);
    let c = q / d;
    let t = q % d;
    lemma_fundamental_div_mod(q, d);
    lemma_mod_bound(q, d);
    // a * d == m * (d * c + t) + r, so a == m * c + s with s * d == m * t + r
    let s = a - m * c;
    assert(s * d == m * t + r) by (nonlinear_arith)
        requires
            s == a - m * c,
            a * d == m * q + r,
            q == d * c + t,
    ;
    assert(0 <= s < m) by (nonlinear_arith)
        requires
            s * d == m * t + r,
            0 <= t <= d - 1,
            0 <= r <= m - 1,
            d > 0,
            m > 0,
    ;
    assert(a as int == c * m + s) by (nonlinear_arith)
        requires
            s == a - m * c,
    ;
    lemma_fundamental_div_mod_converse(a as int, m, c, s);
    assert(s == 0 <==> (t == 0 && r == 0)) by (nonlinear_arith)
        requires
            s * d == m * t + r,
            0 <= t,
            0 <= r,
            d > 0,
            m > 0,
    ;
}

/// More binary places before rounding do not change a quotient: the places that are taken
/// are enough.
pub proof fn lemma_quotient_places_suffice(f: Format, a: Num, b: Num, j: nat)
    requires
        f.valid(),
        f.holds(a),
        f.holds(b),
        a is Finite,
        b is Finite,
        a->mant > 0,
        b->mant > 0,
    ensures
        ({
            let k = 2 * f.precision + j;
            let dividend = a->mant * pow2(k);
            a.over(f, b) == f.round(
                a.negative() != b.negative(),
                dividend / b->mant,
                a->Finite_exp - b->Finite_exp - k,
                dividend % b->mant != 0,
            )
        }),
{
    let p = f.precision;
    let k = 2 * p;
    let n = b->mant;
    let top = a->mant * pow2(k);
    lemma_longer_division(top, n, j);
    lemma_pow2_adds(k, j);
    assert(a->mant * pow2(k + j) == top * pow2(j)) by (nonlinear_arith)
        requires
            pow2(k + j) == pow2(k) * pow2(j),
            top == a->mant * pow2(k),
    ;
    let big = (top * pow2(j)) / n;
    let q = top / n;
    lemma_pow2_pos(p);
    lemma_pow2_pos(j);
    lemma_pow2_adds(p, p);
    lemma_fundamental_div_mod(top as int, n as int);
    lemma_mod_bound(top as int, n as int);
    let full = pow2(p) as int;
    assert(q >= full) by (nonlinear_arith)
        requires
            top == n * q + top as int % n as int,
            top as int % (n as int) < n,
            top == a->mant * (full * full),
            a->mant >= 1,
            0 < n < full,
            full > 0,
    ;
    lemma_bit_length_more_than(q, p);
    lemma_fundamental_div_mod(big as int, pow2(j) as int);
    lemma_mod_bound(big as int, pow2(j) as int);
    let d = pow2(j) as int;
    assert(big >= pow2(j)) by (nonlinear_arith)
        requires
            big == d * q + big as int % d,
            0 <= big as int % d,
            q >= 1,
            d == pow2(j),
    ;
    lemma_bit_length_drop(big, j);
    let x = a->Finite_exp - b->Finite_exp - k - j;
    lemma_round_compress(
        f,
        a.negative() != b.negative(),
        big,
        x,
        (top * pow2(j)) % n != 0,
        j,
    );
}

/// The root of a number with `j` more pairs of zeros: it gains `j` digits, and is exact just
/// if the new digits are zero and it was exact before.
proof fn lemma_longer_root(n: nat, j: nat)
    ensures
        ({
            let m = n * pow2(2 * j);
            let r = floor_root(m);
            &&& r / pow2(j) == floor_root(n)
            &&& (r * r != m || r % pow2(j) != 0) <==> floor_root(n) * floor_root(n) != n
        }),
{
    let d = pow2(j) as int;
    lemma_pow2_pos(j);
    lemma_pow2_adds(j, j);
    let m = n * pow2(2 * j);
    assert(m == n * (d * d));
    lemma_floor_root_exists(m);
    let r = floor_root(m) as int;
    let q = r / d;
    let t = r % d;
    lemma_fundamental_div_mod(r, d);
    lemma_mod_bound(r, d);
    assert(q >= 0) by (nonlinear_arith)
        requires
            r == d * q + t,
            0 <= t < d,
            r >= 0,
    ;
    assert(q * q <= n) by (nonlinear_arith)
        requires
            r == d * q + t,
            0 <= t,
            q >= 0,
            r * r <= n * (d * d),
            d > 0,
    ;
    assert(n < (q + 1) * (q + 1)) by (nonlinear_arith)
        requires
            r == d * q + t,
            t <= d - 1,
            r >= 0,
            n * (d * d) < (r + 1) * (r + 1),
            q >= 0,
            d > 0,
    ;
    lemma_floor_root(n, q as nat);
    if t == 0 && r * r == m {
        assert(q * q == n) by (nonlinear_arith)
            requires
                r == d * q,
                r * r == n * (d * d),
                d > 0,
        ;
    }
    if q * q == n {
        let exact = (d * q) as nat;
        assert(exact * exact == m) by (nonlinear_arith)
            requires
                exact == d * q,
                q * q == n,
                m == n * (d * d),
        ;
        assert(m < (exact + 1) * (exact + 1)) by (nonlinear_arith)
            requires
                exact * exact == m,
                exact >= 0,
        ;
        lemma_floor_root(m, exact);
        assert(r == exact);
    }
}

/// More binary places before rounding do not change a square root: the places that are
/// taken are enough.
pub proof fn lemma_root_places_suffice(f: Format, v: Num, j: nat)
    requires
        f.valid(),
        f.holds(v),
        v is Finite,
        v->mant > 0,
        !v.negative(),
    ensures
        ({
            let k = 2 * f.precision + v->Finite_exp % 2 + 2 * j;
            let radicand = v->mant * pow2(k as nat);
            let r = floor_root(radicand);
            v.root(f) == f.round(false, r, (v->Finite_exp - k) / 2, r * r != radicand)
        }),
{
    let p = f.precision;
    let e = v->Finite_exp;
    let k = (2 * p + e % 2) as nat;
    let n = v->mant * pow2(k);
    lemma_pow2_adds(k, 2 * j);
    let m = v->mant * pow2(k + 2 * j);
    assert(m == n * pow2(2 * j)) by (nonlinear_arith)
        requires
            m == v->mant * pow2(k + 2 * j),
            pow2(k + 2 * j) == pow2(k) * pow2(2 * j),
            n == v->mant * pow2(k),
    ;
    lemma_longer_root(n, j);
    let big = floor_root(m);
    let r = floor_root(n);
    lemma_floor_root_exists(n);
    lemma_pow2_pos(p);
    lemma_pow2_pos(j);
    lemma_pow2_adds(p, p);
    lemma_pow2_monotone(2 * p, k);
    let full = pow2(p) as int;
    assert(r >= full) by (nonlinear_arith)
        requires
            n < (r + 1) * (r + 1),
            n == v->mant * pow2(k),
            v->mant >= 1,
            pow2(k) >= full * full,
            full > 0,
    ;
    lemma_bit_length_more_than(r, p);
    let d = pow2(j) as int;
    lemma_fundamental_div_mod(big as int, d);
    lemma_mod_bound(big as int, d);
    assert(big >= pow2(j)) by (nonlinear_arith)
        requires
            big == d * r + big as int % d,
            0 <= big as int % d,
            r >= 1,
            d == pow2(j),
    ;
    lemma_bit_length_drop(big, j);
    let x = (e - k - 2 * j) / 2;
    assert(x == (e - k) / 2 - j);
    lemma_round_compress(f, false, big, x, big * big != m, j);
}

} // verus!
