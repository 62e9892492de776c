//! What the formants of a filter are in numbers: frequencies, bandwidths and distances of
//! poles, and which poles count.

use crate::correlation::{lemma_square, lemma_unsigned_sum, steps};
use crate::equations::one;
use crate::exact::{
    dyadic, is_number, lemma_diff_exact, lemma_dyadic, lemma_order_in_steps, lemma_prod_against,
    lemma_prod_exact, lemma_quot_against, lemma_quot_exact, lemma_quot_monotone,
    lemma_rank_of_times, lemma_root_exact, lemma_root_monotone, lemma_signs, lemma_size_zero,
    lemma_square_monotone, lemma_sum_exact, lemma_whole_is_dyadic,
};
use crate::formants::{
    formant_frequencies, frequency_ceiling, holds_formants, is_formant, is_sorting,
    lemma_formant_has_frequency, lemma_frequency_has_pole, lemma_sorting_contains, padded,
    pole_bandwidth, pole_distance, pole_frequency, Pole,
};
use crate::laws::lemma_commutative;
use crate::loudness::lemma_sum_monotone;
use crate::lpc::pi32;
use crate::number::{binary32, prod32, quot32, sum32, whole32, zero32, Num};
use crate::order::lemma_below_is_strict_order;
use crate::windowing::{lemma_pi_in_numbers, lemma_turn_in_numbers};
use vstd::arithmetic::power2::{lemma2_to64, lemma_pow2_adds, lemma_pow2_pos, pow2};
use vstd::prelude::*;

verus! {

/// A whole number other than zero that fits the format.
proof fn lemma_rate(n: nat)
    requires
        0 < n < 0x100_0000,
    ensures
        is_number(whole32(n)),
        !whole32(n).negative(),
        !whole32(n).is_zero(),
        steps(whole32(n)) == n * one(),
        steps(whole32(n)) > 0,
        one() > 0,
{
    lemma_whole_is_dyadic(n);
    lemma_dyadic(n, 0);
    lemma_pow2_pos(149);
    assert(n * one() > 0) by (nonlinear_arith)
        requires
            n > 0,
            one() > 0,
    ;
}

/// `a * rate / d` with both roundings, against a number `b`, where `v` is a number between
/// `a * rate` and `b * d`.
#[verifier::rlimit(40)]
proof fn lemma_scaled(a: Num, rate: nat, d: Num, v: Num, b: Num)
    requires
        is_number(a),
        is_number(d),
        is_number(v),
        is_number(b),
        steps(a) > 0,
        steps(d) > 0,
        steps(v) > 0,
        steps(b) > 0,
        d->Finite_exp >= -49,
        0 < rate < 0x100_0000,
    ensures
        steps(b) * steps(d) <= steps(v) * one() && steps(v) <= steps(a) * rate ==> b.at_most(
            quot32(prod32(a, whole32(rate)), d),
        ),
        steps(b) * steps(d) >= steps(v) * one() && steps(v) >= steps(a) * rate ==> quot32(
            prod32(a, whole32(rate)),
            d,
        ).at_most(b),
{
    let f = binary32();
    let y = f.min_exp();
    let u = one();
    let r = whole32(rate);
    lemma_rate(rate);
    lemma_size_zero(a, y);
    lemma_size_zero(d, y);
    lemma_size_zero(v, y);
    let top = prod32(a, r);
    lemma_prod_against(a, r, v);
    lemma_quot_against(v, d, b);
    let (sa, sv) = (steps(a), steps(v));
    assert((sv <= sa * rate ==> sv * u <= sa * (rate * u)) && (sv >= sa * rate ==> sv * u >= sa
        * (rate * u))) by (nonlinear_arith)
        requires
            u > 0,
    ;
    lemma_below_is_strict_order(f, top, top, top);
    lemma_quot_monotone(top, top, d);
    lemma_below_is_strict_order(f, b, quot32(v, d), quot32(top, d));
    lemma_below_is_strict_order(f, quot32(top, d), quot32(v, d), b);
    if v.at_most(top) {
        lemma_quot_monotone(v, top, d);
    }
    if top.at_most(v) {
        lemma_quot_monotone(top, v, d);
    }
}

/// A pole resonates at its angle, as a part of a whole turn of 13176795/2^21, times the
/// sample rate: where a 32-bit number `v` lies between `theta * rate` and `b` whole turns,
/// the frequency is on the same side of `b`.
pub proof fn lemma_frequency_in_numbers(theta: Num, rate: nat, v: Num, b: Num)
    requires
        is_number(theta),
        is_number(v),
        is_number(b),
        steps(theta) > 0,
        steps(v) > 0,
        steps(b) > 0,
        0 < rate < 0x100_0000,
    ensures
        13176795 * steps(b) <= 0x20_0000 * steps(v) && steps(v) <= steps(theta) * rate
            ==> b.at_most(pole_frequency(theta, rate)),
        13176795 * steps(b) >= 0x20_0000 * steps(v) && steps(v) >= steps(theta) * rate
            ==> pole_frequency(theta, rate).at_most(b),
{
    let turn = prod32(whole32(2), pi32());
    lemma_turn_in_numbers();
    lemma_turn_exponent();
    lemma2_to64();
    lemma_pow2_pos(128);
    lemma_pow2_adds(128, 21);
    let p = pow2(128) as int;
    let (sb, sv) = (steps(b), steps(v));
    assert((13176795 * sb <= 0x20_0000 * sv ==> sb * (13176795 * p) <= sv * (p * 0x20_0000)) && (
    13176795 * sb >= 0x20_0000 * sv ==> sb * (13176795 * p) >= sv * (p * 0x20_0000)))
        by (nonlinear_arith)
        requires
            p > 0,
    ;
    lemma_scaled(theta, rate, turn, v, b);
}

proof fn lemma_turn_exponent()
    ensures
        prod32(whole32(2), pi32())->Finite_exp == -21,
        pi32()->Finite_exp == -22,
{
    crate::windowing::lemma_turn_digits();
}

/// The bandwidth of a pole within the unit circle is the logarithm of its distance, turned
/// round, times the sample rate, by a half turn of 13176795/2^22: where a 32-bit number `v`
/// lies between `-ln * rate` and `b` half turns, the bandwidth is on the same side of `b`.
/// A pole that is as far outside has the same one, turned round.
#[verifier::rlimit(40)]
pub proof fn lemma_bandwidth_in_numbers(ln: Num, rate: nat, v: Num, b: Num)
    requires
        is_number(ln),
        is_number(v),
        is_number(b),
        steps(ln) < 0,
        steps(v) > 0,
        steps(b) > 0,
        0 < rate < 0x100_0000,
    ensures
        13176795 * steps(b) <= 0x40_0000 * steps(v) && steps(v) <= -steps(ln) * rate
            ==> b.at_most(pole_bandwidth(ln, rate)),
        13176795 * steps(b) >= 0x40_0000 * steps(v) && steps(v) >= -steps(ln) * rate
            ==> pole_bandwidth(ln, rate).at_most(b),
        pole_bandwidth(ln.minus(), rate) == pole_bandwidth(ln, rate).minus(),
{
    lemma_pi_in_numbers();
    lemma_turn_exponent();
    lemma2_to64();
    lemma_pow2_pos(127);
    lemma_pow2_adds(127, 22);
    let p = pow2(127) as int;
    let (sb, sv) = (steps(b), steps(v));
    assert((13176795 * sb <= 0x40_0000 * sv ==> sb * (13176795 * p) <= sv * (p * 0x40_0000)) && (
    13176795 * sb >= 0x40_0000 * sv ==> sb * (13176795 * p) >= sv * (p * 0x40_0000)))
        by (nonlinear_arith)
        requires
            p > 0,
    ;
    lemma_signs(ln);
    assert(13176795 * p > 0);
    lemma_scaled(ln.minus(), rate, pi32(), v, b);
    lemma_rate(rate);
    let m = ln.minus();
    let r = whole32(rate);
    lemma_size_zero(ln, binary32().min_exp());
    assert(ln.minus().minus() == ln);
    lemma_times_minus(m, r);
    lemma_rank_of_times(m, r);
    lemma_over_minus(prod32(m, r), pi32());
}

/// A product changes its sign with a factor.
proof fn lemma_times_minus(a: Num, b: Num)
    requires
        is_number(a),
        is_number(b),
    ensures
        prod32(a.minus(), b) == prod32(a, b).minus(),
{
}

/// A quotient changes its sign with the dividend.
proof fn lemma_over_minus(a: Num, d: Num)
    requires
        a !is Nan,
        is_number(d),
        !d.is_zero(),
    ensures
        quot32(a.minus(), d) == quot32(a, d).minus(),
{
}

/// The frequency below which a formant has to lie is half of what 400 Hz less than the
/// sample rate are, without rounding; at 16 kHz it is 7800 Hz.
pub proof fn lemma_ceiling_in_numbers(rate: nat)
    requires
        400 < rate < 0x100_0000,
    ensures
        frequency_ceiling(rate) == dyadic((rate - 400) as nat, 1),
        is_number(frequency_ceiling(rate)),
        2 * steps(frequency_ceiling(rate)) == (rate - 400) * one(),
        rate == 16000 ==> frequency_ceiling(rate) == whole32(7800),
{
    let n = (rate - 400) as nat;
    let u = one();
    lemma_rate(rate);
    lemma_rate(2);
    lemma_rate(200);
    lemma_dyadic(rate, 1);
    lemma_dyadic(n, 1);
    lemma2_to64();
    lemma_pow2_adds(148, 1);
    let h = pow2(148) as int;
    assert((rate * h) * (2 * u) == (rate * u) * u) by (nonlinear_arith)
        requires
            u == h * 2,
    ;
    lemma_quot_exact(whole32(rate), whole32(2), dyadic(rate, 1));
    let half = quot32(whole32(rate), whole32(2));
    assert(rate * h - 200 * u == n * h) by (nonlinear_arith)
        requires
            u == h * 2,
            n == rate - 400,
    ;
    lemma_diff_exact(half, whole32(200), dyadic(n, 1));
    assert(2 * (n * h) == n * u) by (nonlinear_arith)
        requires
            u == h * 2,
    ;
    if rate == 16000 {
        lemma_rate(7800);
        assert(15600 * h == 7800 * u);
        lemma_diff_exact(half, whole32(200), whole32(7800));
    }
}

/// Whether a pole lies in the upper half plane and resonates between 250 Hz and 200 Hz
/// under half the sample rate, with a bandwidth, on either side of the circle, below a
/// limit: all of it in numbers.
pub open spec fn resonates(p: Pole, rate: nat, bandwidth_max: Num) -> bool {
    let frequency = pole_frequency(p.theta@, rate);
    &&& zero32().below(p.im@)
    &&& is_number(frequency)
    &&& 250 * one() < steps(frequency)
    &&& 2 * steps(frequency) < (rate - 400) * one()
    &&& pole_bandwidth(p.ln_magnitude@, rate).magnitude().below(bandwidth_max)
}

proof fn lemma_formant_resonates(p: Pole, rate: nat, bandwidth_max: Num)
    requires
        400 < rate < 0x100_0000,
    ensures
        is_formant(p, rate, bandwidth_max) <==> resonates(p, rate, bandwidth_max),
{
    let v = pole_frequency(p.theta@, rate);
    lemma_rate(250);
    lemma_ceiling_in_numbers(rate);
    crate::rounding::lemma_over_holds(
        binary32(),
        prod32(p.theta@, whole32(rate)),
        prod32(whole32(2), pi32()),
    );
    if v is Finite {
        lemma_order_in_steps(whole32(250), v);
        lemma_order_in_steps(v, frequency_ceiling(rate));
    }
}

/// A pole that resonates is among the formants, unless the room is full of others that are
/// no higher.
#[verifier::rlimit(40)]
pub proof fn lemma_resonance_is_reported(
    out: Seq<Num>,
    poles: Seq<Pole>,
    rate: nat,
    bandwidth_max: Num,
    i: int,
)
    requires
        holds_formants(out, poles, rate, bandwidth_max),
        400 < rate < 0x100_0000,
        0 <= i < poles.len(),
        resonates(poles[i], rate, bandwidth_max),
    ensures
        ({
            let v = pole_frequency(poles[i].theta@, rate);
            out.contains(v) || forall|j: int|
                0 <= j < out.len() ==> whole32(250).below(#[trigger] out[j]) && !v.below(out[j])
        }),
        poles.len() <= out.len() ==> out.contains(pole_frequency(poles[i].theta@, rate)),
{
    let v = pole_frequency(poles[i].theta@, rate);
    let all = formant_frequencies(poles, rate, bandwidth_max);
    lemma_formant_resonates(poles[i], rate, bandwidth_max);
    lemma_formant_has_frequency(poles, rate, bandwidth_max, i);
    let sorted = choose|sorted: Seq<Num>|
        #[trigger] is_sorting(sorted, all) && out == padded(sorted, out.len());
    vstd::seq_lib::to_multiset_contains(all, v);
    vstd::seq_lib::to_multiset_contains(sorted, v);
    vstd::seq_lib::to_multiset_len(all);
    vstd::seq_lib::to_multiset_len(sorted);
    let k = choose|k: int| 0 <= k < sorted.len() && sorted[k] == v;
    if k < out.len() {
        assert(out[k] == v);
    } else {
        assert forall|j: int| 0 <= j < out.len() implies whole32(250).below(#[trigger] out[j])
            && !v.below(out[j]) by {
            assert(out[j] == sorted[j]);
            lemma_sorting_contains(sorted, all, j);
            let l = choose|l: int| 0 <= l < all.len() && all[l] == sorted[j];
            lemma_frequency_has_pole(poles, rate, bandwidth_max, l);
        }
    }
}

/// Every formant that is reported, zeros aside, is the frequency of a pole that resonates.
pub proof fn lemma_report_is_a_resonance(
    out: Seq<Num>,
    poles: Seq<Pole>,
    rate: nat,
    bandwidth_max: Num,
    j: int,
)
    requires
        holds_formants(out, poles, rate, bandwidth_max),
        400 < rate < 0x100_0000,
        0 <= j < out.len(),
    ensures
        out[j] == zero32() || exists|i: int|
            0 <= i < poles.len() && resonates(#[trigger] poles[i], rate, bandwidth_max) && out[j]
                == pole_frequency(poles[i].theta@, rate),
{
    let all = formant_frequencies(poles, rate, bandwidth_max);
    let sorted = choose|sorted: Seq<Num>|
        #[trigger] is_sorting(sorted, all) && out == padded(sorted, out.len());
    if j < sorted.len() {
        assert(out[j] == sorted[j]);
        lemma_sorting_contains(sorted, all, j);
        let l = choose|l: int| 0 <= l < all.len() && all[l] == sorted[j];
        lemma_frequency_has_pole(poles, rate, bandwidth_max, l);
        let i = choose|i: int|
            0 <= i < poles.len() && is_formant(#[trigger] poles[i], rate, bandwidth_max) && all[l]
                == pole_frequency(poles[i].theta@, rate);
        lemma_formant_resonates(poles[i], rate, bandwidth_max);
    }
}

/// The distance of a pole from the origin does not depend on the order or the signs of its
/// parts, and grows with them.
pub proof fn lemma_distance_grows(re: Num, im: Num, further: Num, higher: Num)
    requires
        binary32().holds(re),
        binary32().holds(im),
        binary32().holds(further),
        binary32().holds(higher),
        re.magnitude().at_most(further.magnitude()),
        im.magnitude().at_most(higher.magnitude()),
    ensures
        pole_distance(re, im).at_most(pole_distance(further, higher)),
        pole_distance(re, im) == pole_distance(im, re),
        pole_distance(re, im) == pole_distance(re.minus(), im),
{
    lemma_square(re);
    lemma_square(im);
    lemma_square(further);
    lemma_square(higher);
    lemma_square_monotone(re, further);
    lemma_square_monotone(im, higher);
    lemma_commutative(binary32(), prod32(re, re), prod32(im, im));
    lemma_unsigned_sum(prod32(re, re), prod32(im, im));
    lemma_unsigned_sum(prod32(further, further), prod32(higher, higher));
    lemma_sum_monotone(
        prod32(re, re),
        prod32(further, further),
        prod32(im, im),
        prod32(higher, higher),
    );
    lemma_root_monotone(
        sum32(prod32(re, re), prod32(im, im)),
        sum32(prod32(further, further), prod32(higher, higher)),
    );
    assert(prod32(re.minus(), re.minus()) == prod32(re, re));
}

/// A pole at the multiples `a` and `b` of `2^-s` is `c` of them away from the origin, where
/// `a * a + b * b == c * c`.
#[verifier::rlimit(40)]
pub proof fn lemma_distance_in_numbers(re: Num, im: Num, a: int, b: int, c: nat, s: nat)
    requires
        is_number(re),
        is_number(im),
        2 * s <= 149,
        steps(re) == a * pow2((149 - s) as nat),
        steps(im) == b * pow2((149 - s) as nat),
        a * a + b * b == c * c,
        0 < c < 4096,
    ensures
        pole_distance(re, im) == dyadic(c, s),
{
    let h = pow2((149 - s) as nat) as int;
    let w = pow2((149 - 2 * s) as nat) as int;
    let u = one();
    lemma_pow2_adds((149 - s) as nat, (149 - s) as nat);
    lemma_pow2_adds((149 - 2 * s) as nat, 149);
    assert(a * a >= 0 && b * b >= 0 && c * c < 4096 * 4096 && c <= c * c) by (nonlinear_arith)
        requires
            0 < c < 4096,
    ;
    let (p, q, r) = ((a * a) as nat, (b * b) as nat, (c * c) as nat);
    lemma_dyadic(p, 2 * s);
    lemma_dyadic(q, 2 * s);
    lemma_dyadic(r, 2 * s);
    lemma_dyadic(c, s);
    assert((a * h) * (a * h) == (a * a * w) * u) by (nonlinear_arith)
        requires
            h * h == w * u,
    ;
    assert((b * h) * (b * h) == (b * b * w) * u) by (nonlinear_arith)
        requires
            h * h == w * u,
    ;
    assert((c * h) * (c * h) == (c * c * w) * u) by (nonlinear_arith)
        requires
            h * h == w * u,
    ;
    lemma_prod_exact(re, re, dyadic(p, 2 * s));
    lemma_prod_exact(im, im, dyadic(q, 2 * s));
    assert(a * a * w + b * b * w == c * c * w) by (nonlinear_arith)
        requires
            a * a + b * b == c * c,
    ;
    lemma_sum_exact(prod32(re, re), prod32(im, im), dyadic(r, 2 * s));
    assert(!dyadic(r, 2 * s).is_zero());
    lemma_root_exact(dyadic(r, 2 * s), dyadic(c, s));
}

} // verus!
