//! Facts about digits and rounding that the floating-point operations rest on.

use crate::number::{bit_length, common_exp, nearest, units, Format, Num};
use vstd::arithmetic::div_mod::{
    lemma_div_basics, lemma_div_denominator, lemma_fundamental_div_mod,
    lemma_fundamental_div_mod_converse, lemma_mod_bound,
};
use vstd::arithmetic::mul::lemma_mul_basics;
use vstd::arithmetic::power2::{
    lemma_pow2_adds, lemma_pow2_pos, lemma_pow2_strictly_increases, lemma_pow2_unfold, pow2,
};
use vstd::prelude::*;

verus! {

pub proof fn lemma_pow2_zero()
    ensures
        pow2(0) == 1,
        pow2(1) == 2,
{
    vstd::arithmetic::power2::lemma2_to64();
}

/// Appending no digits changes nothing.
pub proof fn lemma_append_none(n: nat)
    ensures
        n * pow2(0) == n,
{
    lemma_pow2_zero();
    lemma_mul_basics(n as int);
}

/// Powers of two grow with the exponent.
pub proof fn lemma_pow2_monotone(a: nat, b: nat)
    requires
        a <= b,
    ensures
        pow2(a) <= pow2(b),
{
    if a < b {
        lemma_pow2_strictly_increases(a, b);
    }
}

/// `n` lies between the powers of two that its digit count names.
pub proof fn lemma_bit_length_bounds(n: nat)
    requires
        n > 0,
    ensures
        bit_length(n) >= 1,
        pow2((bit_length(n) - 1) as nat) <= n < pow2(bit_length(n)),
    decreases n,
{
    lemma_pow2_zero();
    if n > 1 {
        lemma_bit_length_bounds(n / 2);
        let k = bit_length(n / 2);
        lemma_pow2_unfold((k + 1) as nat);
        lemma_pow2_unfold(k);
    } else {
        assert(bit_length(1) == 1) by {
            assert(bit_length(0) == 0);
        }
    }
}

/// Only one digit count fits.
pub proof fn lemma_bit_length_unique(n: nat, k: nat)
    requires
        k >= 1,
        pow2((k - 1) as nat) <= n < pow2(k),
    ensures
        bit_length(n) == k,
{
    lemma_pow2_pos((k - 1) as nat);
    lemma_bit_length_bounds(n);
    let b = bit_length(n);
    if b < k {
        lemma_pow2_monotone(b, (k - 1) as nat);
    } else if b > k {
        lemma_pow2_monotone(k, (b - 1) as nat);
    }
}

/// A number below `2^k` has at most `k` digits.
pub proof fn lemma_bit_length_at_most(n: nat, k: nat)
    requires
        n < pow2(k),
    ensures
        bit_length(n) <= k,
{
    if n > 0 {
        lemma_bit_length_bounds(n);
        if bit_length(n) > k {
            lemma_pow2_monotone(k, (bit_length(n) - 1) as nat);
        }
    }
}

/// A number of at least `2^k` has more than `k` digits.
pub proof fn lemma_bit_length_more_than(n: nat, k: nat)
    requires
        n >= pow2(k),
    ensures
        bit_length(n) > k,
{
    lemma_pow2_pos(k);
    lemma_bit_length_bounds(n);
    if bit_length(n) <= k {
        lemma_pow2_monotone(bit_length(n), k);
    }
}

/// Dropping `k` digits shortens a number by `k` digits.
pub proof fn lemma_bit_length_drop(n: nat, k: nat)
    requires
        n >= pow2(k),
    ensures
        bit_length(n / pow2(k)) == bit_length(n) - k,
        n / pow2(k) > 0,
{
    lemma_pow2_pos(k);
    lemma_bit_length_more_than(n, k);
    lemma_bit_length_bounds(n);
    let b = bit_length(n);
    let d = pow2(k) as int;
    let q = n as int / d;
    lemma_fundamental_div_mod(n as int, d);
    lemma_mod_bound(n as int, d);
    lemma_pow2_adds((b - 1 - k) as nat, k);
    lemma_pow2_adds((b - k) as nat, k);
    let lo = pow2((b - 1 - k) as nat) as int;
    let hi = pow2((b - k) as nat) as int;
    assert(lo <= q) by (nonlinear_arith)
        requires
            lo * d <= n,
            n == d * q + n as int % d,
            n as int % d < d,
            d > 0,
    ;
    assert(q < hi) by (nonlinear_arith)
        requires
            n < hi * d,
            n == d * q + n as int % d,
            0 <= n as int % d,
            d > 0,
    ;
    lemma_pow2_pos((b - 1 - k) as nat);
    lemma_bit_length_unique((n / pow2(k)) as nat, (b - k) as nat);
}

/// Appending `k` zero digits lengthens a number by `k` digits.
pub proof fn lemma_bit_length_append(n: nat, k: nat)
    requires
        n > 0,
    ensures
        bit_length(n * pow2(k)) == bit_length(n) + k,
        n * pow2(k) > 0,
{
    lemma_bit_length_bounds(n);
    lemma_pow2_pos(k);
    let b = bit_length(n);
    let lo = pow2((b - 1) as nat);
    let hi = pow2(b);
    let d = pow2(k);
    lemma_pow2_adds((b - 1) as nat, k);
    lemma_pow2_adds(b, k);
    assert(lo * d <= n * d < hi * d) by (nonlinear_arith)
        requires
            lo <= n < hi,
            d > 0,
    ;
    assert(n * d > 0) by (nonlinear_arith)
        requires
            n > 0,
            d > 0,
    ;
    lemma_bit_length_unique(n * pow2(k), b + k);
}

/// The rounded quotient is the truncated one or the next.
pub proof fn lemma_nearest_bounds(n: nat, drop: nat, sticky: bool)
    ensures
        n / pow2(drop) <= nearest(n, drop, sticky) <= n / pow2(drop) + 1,
{
    lemma_pow2_zero();
    lemma_pow2_pos(drop);
    lemma_div_basics(n as int);
}

/// Before the carry is dealt with, the rounded digits are at most `2^precision`, and
/// at least `2^(precision - 1)` above the smallest exponent.
pub proof fn lemma_round_digits(f: Format, n: nat, x: int, sticky: bool)
    requires
        f.valid(),
        n > 0,
    ensures
        ({
            let e = f.quantum(n, x);
            let m = if e <= x {
                n * pow2((x - e) as nat)
            } else {
                nearest(n, (e - x) as nat, sticky)
            };
            &&& m <= pow2(f.precision)
            &&& e == f.min_exp() || m >= pow2((f.precision - 1) as nat)
            &&& e <= x ==> m < pow2(f.precision)
        }),
{
    lemma_bit_length_bounds(n);
    let b = bit_length(n);
    let p = f.precision;
    let e = f.quantum(n, x);
    let hi = pow2(b);
    let lo = pow2((b - 1) as nat);
    if e <= x {
        let k = (x - e) as nat;
        lemma_pow2_pos(k);
        let d = pow2(k);
        lemma_pow2_adds(b, k);
        lemma_pow2_adds((b - 1) as nat, k);
        lemma_pow2_monotone(b + k, p);
        assert(lo * d <= n * d < hi * d) by (nonlinear_arith)
            requires
                lo <= n < hi,
                d > 0,
        ;
    } else {
        let k = (e - x) as nat;
        lemma_pow2_pos(k);
        let d = pow2(k) as int;
        let q = n as int / d;
        lemma_nearest_bounds(n, k, sticky);
        lemma_fundamental_div_mod(n as int, d);
        lemma_mod_bound(n as int, d);
        lemma_pow2_adds(p, k);
        lemma_pow2_monotone(b, p + k);
        let top = pow2(p) as int;
        assert(q < top) by (nonlinear_arith)
            requires
                n < top * d,
                n == d * q + n as int % d,
                0 <= n as int % d,
                d > 0,
        ;
        if e != f.min_exp() {
            lemma_pow2_adds((p - 1) as nat, k);
            let low = pow2((p - 1) as nat) as int;
            assert(low <= q) by (nonlinear_arith)
                requires
                    low * d <= n,
                    n == d * q + n as int % d,
                    n as int % d < d,
                    d > 0,
            ;
        }
    }
}

/// Rounding gives a value of the format.
pub proof fn lemma_round_holds(f: Format, neg: bool, n: nat, x: int, sticky: bool)
    requires
        f.valid(),
    ensures
        f.holds(f.round(neg, n, x, sticky)),
{
    lemma_pow2_pos(f.precision);
    lemma_pow2_pos((f.precision - 1) as nat);
    lemma_pow2_strictly_increases((f.precision - 1) as nat, f.precision);
    if n > 0 {
        lemma_round_digits(f, n, x, sticky);
    }
}

/// Digits that rounding drops anyway may be dropped before: whether they were all zero
/// is all that matters.
pub proof fn lemma_round_compress(f: Format, neg: bool, n: nat, x: int, sticky: bool, k: nat)
    requires
        f.valid(),
        n >= pow2(k),
        f.quantum(n, x) > x + k,
    ensures
        f.round(neg, n, x, sticky) == f.round(
            neg,
            n / pow2(k),
            x + k,
            sticky || n % pow2(k) != 0,
        ),
{
    lemma_bit_length_drop(n, k);
    let e = f.quantum(n, x);
    assert(e == f.quantum(n / pow2(k), x + k));
    let big = (e - x) as nat;
    let small = (e - x - k) as nat;
    lemma_nearest_compress(n, k, small, sticky);
    assert(big == small + k);
}

/// Rounding in two steps, where the first only notes whether it dropped anything.
pub proof fn lemma_nearest_compress(n: nat, k: nat, drop: nat, sticky: bool)
    requires
        drop >= 1,
    ensures
        nearest(n, drop + k, sticky) == nearest(
            n / pow2(k),
            drop,
            sticky || n % pow2(k) != 0,
        ),
{
    let a = pow2(k) as int;
    let b = pow2(drop) as int;
    let h = pow2((drop - 1) as nat) as int;
    lemma_pow2_pos(k);
    lemma_pow2_pos(drop);
    lemma_pow2_pos((drop - 1) as nat);
    lemma_pow2_adds(k, drop);
    lemma_pow2_adds(k, (drop - 1) as nat);
    assert((k + (drop - 1)) as nat == (drop + k - 1) as nat);
    assert(pow2((drop + k) as nat) == a * b);
    assert(pow2((drop + k - 1) as nat) == a * h);
    let m = n as int;
    lemma_div_denominator(m, a, b);
    let top = m / a;
    let low = m % a;
    let q = top / b;
    let r = top % b;
    lemma_fundamental_div_mod(m, a);
    lemma_fundamental_div_mod(top, b);
    lemma_mod_bound(m, a);
    lemma_mod_bound(top, b);
    let rest = a * r + low;
    assert(m == q * (a * b) + rest) by (nonlinear_arith)
        requires
            m == a * top + low,
            top == b * q + r,
            rest == a * r + low,
    ;
    assert(0 <= rest < a * b) by (nonlinear_arith)
        requires
            0 <= r < b,
            0 <= low < a,
            rest == a * r + low,
    ;
    assert(a * b > 0) by (nonlinear_arith)
        requires
            a > 0,
            b > 0,
    ;
    lemma_fundamental_div_mod_converse(m, a * b, q, rest);
    assert(rest > a * h <==> (r > h || (r == h && low > 0))) by (nonlinear_arith)
        requires
            rest == a * r + low,
            0 <= low < a,
            a > 0,
    ;
    assert(rest == a * h <==> (r == h && low == 0)) by (nonlinear_arith)
        requires
            rest == a * r + low,
            0 <= low < a,
            a > 0,
    ;
}

/// The sum of two values of a format is a value of the format.
pub proof fn lemma_plus_holds(f: Format, a: Num, b: Num)
    requires
        f.valid(),
        f.holds(a),
        f.holds(b),
    ensures
        f.holds(a.plus(f, b)),
{
    lemma_pow2_pos(f.precision);
    if a is Finite && b is Finite {
        let x = common_exp(a, b);
        let v = units(a, x) + units(b, x);
        if v < 0 {
            lemma_round_holds(f, true, (-v) as nat, x, false);
        } else if v > 0 {
            lemma_round_holds(f, false, v as nat, x, false);
        }
    }
}

/// A quotient is a value of the format.
pub proof fn lemma_over_holds(f: Format, a: Num, b: Num)
    requires
        f.valid(),
    ensures
        f.holds(a.over(f, b)),
{
    lemma_pow2_pos(f.precision);
    if a is Finite && b is Finite && b->mant != 0 {
        let k = 2 * f.precision;
        let dividend = a->mant * pow2(k);
        lemma_round_holds(
            f,
            a.negative() != b.negative(),
            dividend / b->mant,
            a->Finite_exp - b->Finite_exp - k,
            dividend % b->mant != 0,
        );
    }
}

} // verus!
